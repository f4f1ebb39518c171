//! The index of wordlists: entries kept in path order, each with its tags.
use vstd::prelude::*;
use vstd::string::StringExecFns;
use crate::error::WlError;
use crate::tagger::{add_tag, with_tag, with_tags};
use crate::text::{
    ascii_lowercase, eq_ignore_ascii_case, lemma_filter_push, lemma_seq_lt_irreflexive, lemma_seq_lt_total,
    lemma_seq_lt_transitive, seq_lt, str_eq, str_lt, views,
};

verus! {

/// The metadata recorded for one wordlist file.
#[derive(Clone, PartialEq, Eq, Debug)]
pub struct WordlistEntry {
    pub id: Option<i64>,
    pub filename: String,
    pub stem: String,
    pub path: String,
    pub extension: Option<String>,
    pub size_bytes: i64,
    pub source_repo: Option<String>,
    pub category: Option<String>,
    pub compressed: bool,
    pub line_count: Option<i64>,
    pub mtime: i64,
    pub last_indexed: i64,
    pub sha256: Option<String>,
}

/// A copy of an optional string.
pub fn copy_opt(s: &Option<String>) -> (r: Option<String>)
    ensures
        r == *s,
{
    match s {
        Some(v) => Some(v.clone()),
        None => None,
    }
}

impl WordlistEntry {
    /// A field-by-field copy.
    pub fn copy(&self) -> (r: Self)
        ensures
            r == *self,
    {
        WordlistEntry {
            id: self.id,
            filename: self.filename.clone(),
            stem: self.stem.clone(),
            path: self.path.clone(),
            extension: copy_opt(&self.extension),
            size_bytes: self.size_bytes,
            source_repo: copy_opt(&self.source_repo),
            category: copy_opt(&self.category),
            compressed: self.compressed,
            line_count: self.line_count,
            mtime: self.mtime,
            last_indexed: self.last_indexed,
            sha256: copy_opt(&self.sha256),
        }
    }

    /// A copy with the given id.
    pub fn with_id(&self, id: i64) -> (r: Self)
        ensures
            r == (WordlistEntry { id: Some(id), ..*self }),
    {
        let mut e = self.copy();
        e.id = Some(id);
        e
    }
}

/// A tag attached to a wordlist, and whether a user attached it by hand.
#[derive(Clone, PartialEq, Eq, Debug)]
pub struct TagLink {
    pub tag: String,
    pub manual: bool,
}

/// One wordlist of the index with its tags.
#[derive(Clone, PartialEq, Eq, Debug)]
pub struct IndexedWordlist {
    pub entry: WordlistEntry,
    pub links: Vec<TagLink>,
}

/// The tags of a wordlist as (name, manual) pairs.
pub open spec fn link_views(links: Seq<TagLink>) -> Seq<(Seq<char>, bool)> {
    links.map_values(|l: TagLink| (l.tag@, l.manual))
}

/// The names in a list of tag pairs.
pub open spec fn link_names(links: Seq<(Seq<char>, bool)>) -> Seq<Seq<char>> {
    links.map_values(|l: (Seq<char>, bool)| l.0)
}

/// The position of the last pair named `t`, or -1.
pub open spec fn link_pos(links: Seq<(Seq<char>, bool)>, t: Seq<char>) -> int
    decreases links.len(),
{
    if links.len() == 0 {
        -1
    } else if links.last().0 == t {
        links.len() - 1
    } else {
        link_pos(links.drop_last(), t)
    }
}

/// Attaches tag `t` with the given manual flag: an existing pair of that name becomes manual
/// when the new flag is (a tag attached by hand stays so), otherwise the pair is appended.
pub open spec fn put_link(links: Seq<(Seq<char>, bool)>, t: Seq<char>, manual: bool) -> Seq<
    (Seq<char>, bool),
> {
    let p = link_pos(links, t);
    if p >= 0 {
        links.update(p, (t, manual || links[p].1))
    } else {
        links.push((t, manual))
    }
}

/// Attaches each of `ts` in turn.
pub open spec fn put_links(links: Seq<(Seq<char>, bool)>, ts: Seq<Seq<char>>, manual: bool) -> Seq<
    (Seq<char>, bool),
>
    decreases ts.len(),
{
    if ts.len() == 0 {
        links
    } else {
        put_link(put_links(links, ts.drop_last(), manual), ts.last(), manual)
    }
}

/// The pairs that were attached by hand.
pub open spec fn manual_links(links: Seq<(Seq<char>, bool)>) -> Seq<(Seq<char>, bool)> {
    links.filter(|l: (Seq<char>, bool)| l.1)
}

/// The tags after a retagging: an automatic retagging first drops the automatic tags.
pub open spec fn retag(links: Seq<(Seq<char>, bool)>, ts: Seq<Seq<char>>, manual: bool) -> Seq<
    (Seq<char>, bool),
> {
    put_links(if manual { links } else { manual_links(links) }, ts, manual)
}

/// The tags after removing `t`.
pub open spec fn remove_link(links: Seq<(Seq<char>, bool)>, t: Seq<char>) -> Seq<(Seq<char>, bool)> {
    let p = link_pos(links, t);
    if p >= 0 {
        links.remove(p)
    } else {
        links
    }
}

/// No name occurs twice.
pub open spec fn distinct_names(names: Seq<Seq<char>>) -> bool {
    forall|i: int, j: int| 0 <= i < j < names.len() ==> names[i] != names[j]
}

/// The wordlists are in strictly increasing order of path.
pub open spec fn paths_sorted(rows: Seq<IndexedWordlist>) -> bool {
    forall|i: int, j: int|
        0 <= i < j < rows.len() ==> seq_lt(#[trigger] rows[i].entry.path@, #[trigger] rows[j].entry.path@)
}

/// The invariant of the index: entries strictly ordered by path, every entry has an id
/// and no two share one, no wordlist carries a tag twice, and every attached tag is known.
pub open spec fn index_wf(rows: Seq<IndexedWordlist>, known: Seq<Seq<char>>) -> bool {
    &&& paths_sorted(rows)
    &&& forall|i: int| 0 <= i < rows.len() ==> (#[trigger] rows[i]).entry.id is Some
    &&& forall|i: int, j: int|
        0 <= i < rows.len() && 0 <= j < rows.len() && i != j ==> #[trigger] rows[i].entry.id
            != #[trigger] rows[j].entry.id
    &&& forall|i: int|
        0 <= i < rows.len() ==> distinct_names(link_names(link_views((#[trigger] rows[i]).links@)))
    &&& forall|i: int, k: int|
        0 <= i < rows.len() && 0 <= k < rows[i].links@.len() ==> known.contains(
            (#[trigger] rows[i].links@[k]).tag@,
        )
    &&& distinct_names(known)
}

/// The entries of a sequence of wordlists.
pub open spec fn entries_of(rows: Seq<IndexedWordlist>) -> Seq<WordlistEntry> {
    rows.map_values(|w: IndexedWordlist| w.entry)
}

/// Whether some wordlist has the given id.
pub open spec fn has_id(rows: Seq<IndexedWordlist>, id: i64) -> bool {
    exists|i: int| 0 <= i < rows.len() && rows[i].entry.id == Some(id)
}

/// The position of the wordlist with the given id.
pub open spec fn id_pos(rows: Seq<IndexedWordlist>, id: i64) -> int {
    choose|i: int| 0 <= i < rows.len() && rows[i].entry.id == Some(id)
}

/// Whether some wordlist has the given path.
pub open spec fn has_path(rows: Seq<IndexedWordlist>, path: Seq<char>) -> bool {
    exists|i: int| 0 <= i < rows.len() && rows[i].entry.path@ == path
}

/// The position of the wordlist with the given path.
pub open spec fn path_pos(rows: Seq<IndexedWordlist>, path: Seq<char>) -> int {
    choose|i: int| 0 <= i < rows.len() && rows[i].entry.path@ == path
}

/// The tag names of the wordlist with the given id (none when there is no such wordlist).
pub open spec fn tags_of(rows: Seq<IndexedWordlist>, id: i64) -> Seq<Seq<char>> {
    if has_id(rows, id) {
        link_names(link_views(rows[id_pos(rows, id)].links@))
    } else {
        Seq::empty()
    }
}

/// Whether an entry answers to a name: its file name or its stem equals the name,
/// ignoring ASCII case.
pub open spec fn name_matches(e: WordlistEntry, name: Seq<char>) -> bool {
    ascii_lowercase(e.filename@) == ascii_lowercase(name) || ascii_lowercase(e.stem@)
        == ascii_lowercase(name)
}

/// The largest id in use, or 0.
pub open spec fn max_id(rows: Seq<IndexedWordlist>) -> int
    decreases rows.len(),
{
    if rows.len() == 0 {
        0
    } else {
        let m = max_id(rows.drop_last());
        let v = match rows.last().entry.id {
            Some(x) => x as int,
            None => 0,
        };
        if v > m {
            v
        } else {
            m
        }
    }
}

/// The wordlist index.
pub struct Index {
    rows: Vec<IndexedWordlist>,
    known: Vec<String>,
}

impl Index {
    /// Every index is valid.
    #[verifier::type_invariant]
    pub open spec fn inv(self) -> bool {
        index_wf(self.rows(), self.known())
    }

    /// The wordlists, in path order.
    pub closed spec fn rows(self) -> Seq<IndexedWordlist> {
        self.rows@
    }

    /// Every tag name that was ever attached.
    pub closed spec fn known(self) -> Seq<Seq<char>> {
        views(self.known@)
    }

    /// An empty index.
    pub fn new() -> (r: Index)
        ensures
            r.rows() == Seq::<IndexedWordlist>::empty(),
            r.known() == Seq::<Seq<char>>::empty(),
    {
        let r = Index { rows: Vec::new(), known: Vec::new() };
        assert(views(r.known@) =~= Seq::<Seq<char>>::empty());
        r
    }
}


/// Two wordlists of a valid index never share a path.
proof fn lemma_paths_distinct(rows: Seq<IndexedWordlist>, known: Seq<Seq<char>>, i: int, j: int)
    requires
        index_wf(rows, known),
        0 <= i < rows.len(),
        0 <= j < rows.len(),
        i != j,
    ensures
        rows[i].entry.path@ != rows[j].entry.path@,
{
    if i < j {
        assert(seq_lt(rows[i].entry.path@, rows[j].entry.path@));
    } else {
        assert(seq_lt(rows[j].entry.path@, rows[i].entry.path@));
    }
    lemma_seq_lt_irreflexive(rows[i].entry.path@);
}

/// In a valid index the wordlist found at `i` is the one `path_pos` names.
pub proof fn lemma_path_pos(rows: Seq<IndexedWordlist>, known: Seq<Seq<char>>, i: int)
    requires
        index_wf(rows, known),
        0 <= i < rows.len(),
    ensures
        has_path(rows, rows[i].entry.path@),
        path_pos(rows, rows[i].entry.path@) == i,
{
    let p = rows[i].entry.path@;
    assert(has_path(rows, p));
    let k = path_pos(rows, p);
    if k != i {
        lemma_paths_distinct(rows, known, i, k);
    }
}

/// In a valid index the wordlist found at `i` is the one `id_pos` names.
proof fn lemma_id_pos(rows: Seq<IndexedWordlist>, known: Seq<Seq<char>>, i: int, id: i64)
    requires
        index_wf(rows, known),
        0 <= i < rows.len(),
        rows[i].entry.id == Some(id),
    ensures
        has_id(rows, id),
        id_pos(rows, id) == i,
{
    assert(has_id(rows, id));
    let k = id_pos(rows, id);
    if k != i {
        assert(rows[i].entry.id != rows[k].entry.id);
    }
}

/// Where `path` stands among sorted wordlists: everything before the position has a smaller
/// path; the flag tells whether the wordlist at the position has this very path, and when it
/// does not, everything from the position on has a larger path.
fn locate(rows: &Vec<IndexedWordlist>, path: &str) -> (r: (usize, bool))
    requires
        paths_sorted(rows@),
    ensures
        r.0 <= rows@.len(),
        forall|j: int| 0 <= j < r.0 ==> seq_lt(#[trigger] rows@[j].entry.path@, path@),
        r.1 ==> r.0 < rows@.len() && rows@[r.0 as int].entry.path@ == path@,
        !r.1 ==> forall|j: int| r.0 <= j < rows@.len() ==> seq_lt(path@, #[trigger] rows@[j].entry.path@),
{
    let mut lo: usize = 0;
    let mut hi: usize = rows.len();
    while lo < hi
        invariant
            lo <= hi <= rows@.len(),
            paths_sorted(rows@),
            forall|j: int| 0 <= j < lo ==> seq_lt(#[trigger] rows@[j].entry.path@, path@),
            forall|j: int| hi <= j < rows@.len() ==> !seq_lt(#[trigger] rows@[j].entry.path@, path@),
        decreases hi - lo,
    {
        let mid = lo + (hi - lo) / 2;
        if str_lt(rows[mid].entry.path.as_str(), path) {
            assert forall|j: int| 0 <= j < mid + 1 implies seq_lt(#[trigger] rows@[j].entry.path@, path@) by {
                if j < mid {
                    lemma_seq_lt_transitive(rows@[j].entry.path@, rows@[mid as int].entry.path@, path@);
                }
            }
            lo = mid + 1;
        } else {
            assert forall|j: int| mid <= j < rows@.len() implies !seq_lt(#[trigger] rows@[j].entry.path@, path@) by {
                if j > mid && seq_lt(rows@[j].entry.path@, path@) {
                    lemma_seq_lt_transitive(rows@[mid as int].entry.path@, rows@[j].entry.path@, path@);
                }
            }
            hi = mid;
        }
    }
    if lo < rows.len() && str_eq(rows[lo].entry.path.as_str(), path) {
        (lo, true)
    } else {
        assert forall|j: int| lo <= j < rows@.len() implies seq_lt(path@, #[trigger] rows@[j].entry.path@) by {
            lemma_seq_lt_total(path@, rows@[j].entry.path@);
            if j > lo && rows@[j].entry.path@ == path@ {
                assert(seq_lt(rows@[lo as int].entry.path@, rows@[j].entry.path@));
                lemma_seq_lt_total(path@, rows@[lo as int].entry.path@);
            }
        }
        (lo, false)
    }
}

/// The position of the wordlist with the given path.
fn find_path(rows: &Vec<IndexedWordlist>, path: &str) -> (r: Option<usize>)
    requires
        paths_sorted(rows@),
    ensures
        match r {
            Some(i) => i < rows@.len() && rows@[i as int].entry.path@ == path@,
            None => !has_path(rows@, path@),
        },
{
    let (i, found) = locate(rows, path);
    if found {
        Some(i)
    } else {
        assert forall|j: int| 0 <= j < rows@.len() implies rows@[j].entry.path@ != path@ by {
            if j < i {
                assert(seq_lt(rows@[j].entry.path@, path@));
            } else {
                assert(seq_lt(path@, rows@[j].entry.path@));
            }
            lemma_seq_lt_irreflexive(path@);
        }
        None
    }
}

/// The position of the wordlist with the given id.
fn find_id(rows: &Vec<IndexedWordlist>, id: i64) -> (r: Option<usize>)
    ensures
        match r {
            Some(i) => i < rows@.len() && rows@[i as int].entry.id == Some(id),
            None => !has_id(rows@, id),
        },
{
    let mut i: usize = 0;
    while i < rows.len()
        invariant
            i <= rows@.len(),
            forall|j: int| 0 <= j < i ==> rows@[j].entry.id != Some(id),
        decreases rows@.len() - i,
    {
        if rows[i].entry.id == Some(id) {
            return Some(i);
        }
        i = i + 1;
    }
    None
}

/// Every wordlist of the index, in path order.
pub fn get_all(index: &Index) -> (r: Vec<WordlistEntry>)
    ensures
        r@ == entries_of(index.rows()),
{
    let mut out: Vec<WordlistEntry> = Vec::new();
    let mut i: usize = 0;
    while i < index.rows.len()
        invariant
            i <= index.rows@.len(),
            out@ == entries_of(index.rows@.take(i as int)),
        decreases index.rows@.len() - i,
    {
        out.push(index.rows[i].entry.copy());
        i = i + 1;
        assert(entries_of(index.rows@.take(i as int)) =~= entries_of(index.rows@.take(i - 1)).push(
            index.rows@[i - 1].entry,
        ));
    }
    assert(index.rows@.take(i as int) =~= index.rows@);
    out
}

/// The wordlists whose file name or stem equals `name`, ignoring ASCII case, in path order.
pub fn get_by_name(index: &Index, name: &str) -> (r: Vec<WordlistEntry>)
    ensures
        r@ == entries_of(index.rows()).filter(|e: WordlistEntry| name_matches(e, name@)),
{
    let ghost pred = |e: WordlistEntry| name_matches(e, name@);
    let mut out: Vec<WordlistEntry> = Vec::new();
    let mut i: usize = 0;
    while i < index.rows.len()
        invariant
            i <= index.rows@.len(),
            pred == (|e: WordlistEntry| name_matches(e, name@)),
            out@ == entries_of(index.rows@.take(i as int)).filter(pred),
        decreases index.rows@.len() - i,
    {
        let e = &index.rows[i].entry;
        let ghost prefix = entries_of(index.rows@.take(i as int));
        assert(entries_of(index.rows@.take(i + 1)) =~= prefix.push(*e));
        proof {
            lemma_filter_push(prefix, *e, pred);
        }
        if eq_ignore_ascii_case(e.filename.as_str(), name) || eq_ignore_ascii_case(
            e.stem.as_str(),
            name,
        ) {
            out.push(e.copy());
        }
        i = i + 1;
    }
    assert(index.rows@.take(i as int) =~= index.rows@);
    out
}

/// The wordlist with the given path, if any.
pub fn get_entry_by_path(index: &Index, path: &str) -> (r: Option<WordlistEntry>)
    ensures
        r == (if has_path(index.rows(), path@) {
            Some(index.rows()[path_pos(index.rows(), path@)].entry)
        } else {
            None
        }),
{
    proof {
        use_type_invariant(index);
    }
    match find_path(&index.rows, path) {
        Some(i) => {
            proof {
                lemma_path_pos(index.rows@, views(index.known@), i as int);
            }
            Some(index.rows[i].entry.copy())
        },
        None => None,
    }
}

/// The tag names of the wordlist with the given id, in the order they were attached.
pub fn get_tags_for_wordlist(index: &Index, wordlist_id: i64) -> (r: Vec<String>)
    ensures
        views(r@) == tags_of(index.rows(), wordlist_id),
{
    proof {
        use_type_invariant(index);
    }
    let mut out: Vec<String> = Vec::new();
    match find_id(&index.rows, wordlist_id) {
        Some(i) => {
            proof {
                lemma_id_pos(index.rows@, views(index.known@), i as int, wordlist_id);
            }
            let links = &index.rows[i].links;
            let mut k: usize = 0;
            while k < links.len()
                invariant
                    k <= links@.len(),
                    views(out@) == link_names(link_views(links@.take(k as int))),
                decreases links@.len() - k,
            {
                out.push(links[k].tag.clone());
                k = k + 1;
                assert(link_names(link_views(links@.take(k as int))) =~= link_names(
                    link_views(links@.take(k - 1)),
                ).push(links@[k - 1].tag@));
                assert(views(out@) =~= views(out@.drop_last()).push(out@.last()@));
            }
            assert(links@.take(k as int) =~= links@);
        },
        None => {
            assert(views(out@) =~= Seq::<Seq<char>>::empty());
        },
    }
    out
}


/// Facts about `link_pos`.
pub proof fn lemma_link_pos(ls: Seq<(Seq<char>, bool)>, t: Seq<char>)
    ensures
        -1 <= link_pos(ls, t) < ls.len(),
        link_pos(ls, t) >= 0 ==> ls[link_pos(ls, t)].0 == t,
        link_pos(ls, t) == -1 <==> (forall|i: int| 0 <= i < ls.len() ==> ls[i].0 != t),
        link_pos(ls, t) >= 0 <==> link_names(ls).contains(t),
    decreases ls.len(),
{
    if ls.len() > 0 {
        lemma_link_pos(ls.drop_last(), t);
        if link_pos(ls, t) == -1 {
            assert forall|i: int| 0 <= i < ls.len() implies ls[i].0 != t by {
                if i < ls.len() - 1 {
                    assert(ls.drop_last()[i] == ls[i]);
                }
            }
        }
    }
    if link_names(ls).contains(t) {
        let i = choose|i: int| 0 <= i < link_names(ls).len() && link_names(ls)[i] == t;
        assert(ls[i].0 == t);
    }
    if link_pos(ls, t) >= 0 {
        assert(link_names(ls)[link_pos(ls, t)] == t);
    }
}

/// With distinct names, the pair named `t` is the one `link_pos` finds.
pub proof fn lemma_link_pos_unique(ls: Seq<(Seq<char>, bool)>, t: Seq<char>, i: int)
    requires
        distinct_names(link_names(ls)),
        0 <= i < ls.len(),
        ls[i].0 == t,
    ensures
        link_pos(ls, t) == i,
{
    lemma_link_pos(ls, t);
    let p = link_pos(ls, t);
    if p != i {
        assert(link_names(ls)[p] == link_names(ls)[i]);
    }
}

/// Attaching a tag gives the names `with_tag` describes, and keeps them distinct.
pub proof fn lemma_put_link(ls: Seq<(Seq<char>, bool)>, t: Seq<char>, m: bool)
    requires
        distinct_names(link_names(ls)),
    ensures
        link_names(put_link(ls, t, m)) == with_tag(link_names(ls), t),
        distinct_names(link_names(put_link(ls, t, m))),
{
    lemma_link_pos(ls, t);
    let p = link_pos(ls, t);
    if p >= 0 {
        assert(link_names(ls.update(p, (t, m))) =~= link_names(ls));
    } else {
        assert(link_names(ls.push((t, m))) =~= link_names(ls).push(t));
        assert forall|i: int, j: int|
            0 <= i < j < link_names(ls).push(t).len() implies link_names(ls).push(t)[i]
            != link_names(ls).push(t)[j] by {
            if j == ls.len() {
                assert(ls[i].0 != t);
            }
        }
    }
}

/// Attaching several tags gives the names `with_tags` describes, and keeps them distinct.
pub proof fn lemma_put_links(ls: Seq<(Seq<char>, bool)>, ts: Seq<Seq<char>>, m: bool)
    requires
        distinct_names(link_names(ls)),
    ensures
        link_names(put_links(ls, ts, m)) == with_tags(link_names(ls), ts),
        distinct_names(link_names(put_links(ls, ts, m))),
    decreases ts.len(),
{
    if ts.len() > 0 {
        lemma_put_links(ls, ts.drop_last(), m);
        lemma_put_link(put_links(ls, ts.drop_last(), m), ts.last(), m);
    }
}

/// `with_tag` keeps what was there, adds `t`, adds nothing else, and keeps names distinct.
pub proof fn lemma_with_tag(names: Seq<Seq<char>>, t: Seq<char>)
    ensures
        with_tag(names, t).contains(t),
        forall|x: Seq<char>| names.contains(x) ==> with_tag(names, t).contains(x),
        forall|x: Seq<char>| with_tag(names, t).contains(x) ==> names.contains(x) || x == t,
        distinct_names(names) ==> distinct_names(with_tag(names, t)),
{
    if !names.contains(t) {
        assert(names.push(t)[names.len() as int] == t);
        assert forall|x: Seq<char>| names.contains(x) implies names.push(t).contains(x) by {
            let i = choose|i: int| 0 <= i < names.len() && names[i] == x;
            assert(names.push(t)[i] == x);
        }
        assert forall|x: Seq<char>| names.push(t).contains(x) implies names.contains(x) || x == t by {
            let i = choose|i: int| 0 <= i < names.push(t).len() && names.push(t)[i] == x;
            if i < names.len() {
                assert(names[i] == x);
            }
        }
    }
}

/// `with_tags` keeps what was there, adds each of `ts`, nothing else, and keeps names distinct.
pub proof fn lemma_with_tags(names: Seq<Seq<char>>, ts: Seq<Seq<char>>)
    ensures
        forall|x: Seq<char>| names.contains(x) ==> with_tags(names, ts).contains(x),
        forall|x: Seq<char>| ts.contains(x) ==> with_tags(names, ts).contains(x),
        forall|x: Seq<char>|
            with_tags(names, ts).contains(x) ==> names.contains(x) || ts.contains(x),
        distinct_names(names) ==> distinct_names(with_tags(names, ts)),
    decreases ts.len(),
{
    if ts.len() > 0 {
        let prev = with_tags(names, ts.drop_last());
        lemma_with_tags(names, ts.drop_last());
        lemma_with_tag(prev, ts.last());
        assert forall|x: Seq<char>| ts.contains(x) implies with_tags(names, ts).contains(x) by {
            let i = choose|i: int| 0 <= i < ts.len() && ts[i] == x;
            if i < ts.len() - 1 {
                assert(ts.drop_last()[i] == x);
                assert(ts.drop_last().contains(x));
                assert(prev.contains(x));
            } else {
                assert(x == ts.last());
            }
        }
        assert forall|x: Seq<char>| with_tags(names, ts).contains(x) implies names.contains(x)
            || ts.contains(x) by {
            if prev.contains(x) {
                if ts.drop_last().contains(x) {
                    let i = choose|i: int| 0 <= i < ts.drop_last().len() && ts.drop_last()[i] == x;
                    assert(ts[i] == x);
                }
            } else {
                assert(ts[ts.len() - 1] == x);
            }
        }
    }
}

/// The pairs that survive a filter are pairs of the given sequence, and their names stay
/// distinct.
pub proof fn lemma_manual_links(ls: Seq<(Seq<char>, bool)>)
    ensures
        forall|i: int|
            0 <= i < manual_links(ls).len() ==> ls.contains(#[trigger] manual_links(ls)[i]),
        forall|i: int| 0 <= i < manual_links(ls).len() ==> (#[trigger] manual_links(ls)[i]).1,
        forall|i: int| 0 <= i < ls.len() && ls[i].1 ==> manual_links(ls).contains(#[trigger] ls[i]),
        distinct_names(link_names(ls)) ==> distinct_names(link_names(manual_links(ls))),
    decreases ls.len(),
{
    reveal_with_fuel(Seq::filter, 1);
    if ls.len() > 0 {
        let d = ls.drop_last();
        lemma_manual_links(d);
        assert(manual_links(ls) == (if ls.last().1 {
            manual_links(d).push(ls.last())
        } else {
            manual_links(d)
        }));
        assert forall|i: int| 0 <= i < manual_links(ls).len() implies ls.contains(
            #[trigger] manual_links(ls)[i],
        ) by {
            if i < manual_links(d).len() {
                assert(manual_links(ls)[i] == manual_links(d)[i]);
                let k = choose|k: int| 0 <= k < d.len() && d[k] == manual_links(d)[i];
                assert(ls[k] == d[k]);
            } else {
                assert(ls[ls.len() - 1] == ls.last());
            }
        }
        assert forall|i: int| 0 <= i < manual_links(ls).len() implies (#[trigger] manual_links(
            ls,
        )[i]).1 by {
            if i < manual_links(d).len() {
                assert(manual_links(ls)[i] == manual_links(d)[i]);
            }
        }
        assert forall|i: int| 0 <= i < ls.len() && ls[i].1 implies manual_links(ls).contains(
            #[trigger] ls[i],
        ) by {
            if i < ls.len() - 1 {
                assert(ls[i] == d[i]);
                let k = choose|k: int|
                    0 <= k < manual_links(d).len() && manual_links(d)[k] == d[i];
                assert(manual_links(ls)[k] == d[i]);
            } else {
                assert(manual_links(ls)[manual_links(ls).len() - 1] == ls[i]);
            }
        }
        if distinct_names(link_names(ls)) {
            assert(distinct_names(link_names(d))) by {
                assert forall|i: int, j: int|
                    0 <= i < j < link_names(d).len() implies link_names(d)[i] != link_names(d)[j] by {
                    assert(link_names(d)[i] == link_names(ls)[i]);
                    assert(link_names(d)[j] == link_names(ls)[j]);
                }
            }
            if ls.last().1 {
                let m = manual_links(d);
                assert forall|i: int, j: int|
                    0 <= i < j < link_names(m.push(ls.last())).len() implies link_names(
                    m.push(ls.last()),
                )[i] != link_names(m.push(ls.last()))[j] by {
                    if j == m.len() {
                        let k = choose|k: int| 0 <= k < d.len() && d[k] == m[i];
                        assert(link_names(ls)[k] == m[i].0);
                        assert(link_names(ls)[ls.len() - 1] == ls.last().0);
                        assert(link_names(m.push(ls.last()))[i] == m[i].0);
                    } else {
                        assert(link_names(m.push(ls.last()))[i] == link_names(m)[i]);
                        assert(link_names(m.push(ls.last()))[j] == link_names(m)[j]);
                    }
                }
            }
        }
    }
}


/// `new` is `old` with only the tags of the wordlist at `i` changed, to `links`.
pub open spec fn relinked(
    old: Seq<IndexedWordlist>,
    new: Seq<IndexedWordlist>,
    i: int,
    links: Seq<(Seq<char>, bool)>,
) -> bool {
    &&& 0 <= i < old.len()
    &&& new.len() == old.len()
    &&& forall|j: int| 0 <= j < old.len() && j != i ==> new[j] == old[j]
    &&& new[i].entry == old[i].entry
    &&& link_views(new[i].links@) == links
}

/// Changing the tags of one wordlist keeps the index valid when the new tags are distinct
/// and known, and the known names only grew.
proof fn lemma_relink_wf(
    old: Seq<IndexedWordlist>,
    new: Seq<IndexedWordlist>,
    known_old: Seq<Seq<char>>,
    known_new: Seq<Seq<char>>,
    i: int,
    links: Seq<(Seq<char>, bool)>,
)
    requires
        index_wf(old, known_old),
        relinked(old, new, i, links),
        distinct_names(link_names(links)),
        forall|x: Seq<char>| link_names(links).contains(x) ==> known_new.contains(x),
        forall|x: Seq<char>| known_old.contains(x) ==> known_new.contains(x),
        distinct_names(known_new),
    ensures
        index_wf(new, known_new),
{
    assert forall|a: int, b: int| 0 <= a < b < new.len() implies seq_lt(
        #[trigger] new[a].entry.path@,
        #[trigger] new[b].entry.path@,
    ) by {
        assert(new[a].entry == old[a].entry && new[b].entry == old[b].entry);
    }
    assert forall|a: int| 0 <= a < new.len() implies (#[trigger] new[a]).entry.id is Some by {
        assert(new[a].entry == old[a].entry);
    }
    assert forall|a: int, b: int|
        0 <= a < new.len() && 0 <= b < new.len() && a != b implies #[trigger] new[a].entry.id
        != #[trigger] new[b].entry.id by {
        assert(new[a].entry == old[a].entry && new[b].entry == old[b].entry);
    }
    assert forall|a: int| 0 <= a < new.len() implies distinct_names(
        link_names(link_views((#[trigger] new[a]).links@)),
    ) by {
        if a != i {
            assert(new[a] == old[a]);
        }
    }
    assert forall|a: int, k: int| 0 <= a < new.len() && 0 <= k < new[a].links@.len() implies known_new.contains(
        (#[trigger] new[a].links@[k]).tag@,
    ) by {
        if a != i {
            assert(new[a] == old[a]);
            assert(known_old.contains(old[a].links@[k].tag@));
        } else {
            assert(link_names(links)[k] == new[a].links@[k].tag@);
            assert(link_names(links).contains(new[a].links@[k].tag@));
        }
    }
}

impl Index {
    /// The parts of an index, with its invariant.
    fn into_parts(self) -> (r: (Vec<IndexedWordlist>, Vec<String>))
        ensures
            r.0@ == self.rows(),
            views(r.1@) == self.known(),
            index_wf(r.0@, views(r.1@)),
    {
        proof {
            use_type_invariant(&self);
        }
        let Index { rows, known } = self;
        (rows, known)
    }

    /// Moves the contents out, leaving an empty index behind.
    fn take(&mut self) -> (r: (Vec<IndexedWordlist>, Vec<String>))
        ensures
            r.0@ == old(self).rows(),
            views(r.1@) == old(self).known(),
            index_wf(r.0@, views(r.1@)),
    {
        let mut tmp = Index::new();
        std::mem::swap(self, &mut tmp);
        tmp.into_parts()
    }
}

/// The position of the tag named `t`.
fn link_index(links: &Vec<TagLink>, t: &str) -> (r: Option<usize>)
    requires
        distinct_names(link_names(link_views(links@))),
    ensures
        match r {
            Some(i) => i as int == link_pos(link_views(links@), t@) && i < links@.len(),
            None => link_pos(link_views(links@), t@) == -1,
        },
{
    let ghost lv = link_views(links@);
    let mut i: usize = 0;
    while i < links.len()
        invariant
            i <= links@.len(),
            lv == link_views(links@),
            distinct_names(link_names(lv)),
            forall|j: int| 0 <= j < i ==> lv[j].0 != t@,
        decreases links@.len() - i,
    {
        if str_eq(links[i].tag.as_str(), t) {
            proof {
                lemma_link_pos_unique(lv, t@, i as int);
            }
            return Some(i);
        }
        i = i + 1;
    }
    proof {
        lemma_link_pos(lv, t@);
    }
    None
}

/// Attaches tag `t` with the given manual flag.
fn put_link_exec(links: &mut Vec<TagLink>, t: &str, manual: bool)
    requires
        distinct_names(link_names(link_views(old(links)@))),
    ensures
        link_views(final(links)@) == put_link(link_views(old(links)@), t@, manual),
{
    let ghost lv = link_views(links@);
    proof {
        lemma_link_pos(lv, t@);
    }
    match link_index(links, t) {
        Some(i) => {
            let m = manual || links[i].manual;
            links.set(i, TagLink { tag: t.to_owned(), manual: m });
            assert(link_views(links@) =~= lv.update(i as int, (t@, manual || lv[i as int].1)));
        },
        None => {
            links.push(TagLink { tag: t.to_owned(), manual });
            assert(link_views(links@) =~= lv.push((t@, manual)));
        },
    }
}

/// The tags that were attached by hand.
fn keep_manual(links: Vec<TagLink>) -> (r: Vec<TagLink>)
    ensures
        link_views(r@) == manual_links(link_views(links@)),
{
    let mut out: Vec<TagLink> = Vec::new();
    let mut i: usize = 0;
    while i < links.len()
        invariant
            i <= links@.len(),
            link_views(out@) == manual_links(link_views(links@.take(i as int))),
        decreases links@.len() - i,
    {
        let ghost prefix = link_views(links@.take(i as int));
        assert(link_views(links@.take(i + 1)) =~= prefix.push((links@[i as int].tag@, links@[i as int].manual)));
        proof {
            lemma_filter_push(prefix, (links@[i as int].tag@, links@[i as int].manual), |l: (Seq<char>, bool)| l.1);
        }
        if links[i].manual {
            let ghost before = link_views(out@);
            out.push(TagLink { tag: links[i].tag.clone(), manual: true });
            assert(link_views(out@) =~= before.push((links@[i as int].tag@, true)));
        }
        i = i + 1;
    }
    assert(links@.take(i as int) =~= links@);
    out
}

/// Replaces the tags of the wordlist at `i`.
fn replace_links(rows: &mut Vec<IndexedWordlist>, i: usize, links: Vec<TagLink>)
    requires
        i < old(rows)@.len(),
    ensures
        relinked(old(rows)@, final(rows)@, i as int, link_views(links@)),
{
    let ghost before = rows@;
    let row = rows.remove(i);
    let IndexedWordlist { entry, links: _ } = row;
    rows.insert(i, IndexedWordlist { entry, links });
    assert forall|j: int| 0 <= j < before.len() && j != i implies rows@[j] == before[j] by {
        if j < i {
            assert(rows@[j] == before.remove(i as int)[j]);
        } else {
            assert(rows@[j] == before.remove(i as int)[j - 1]);
        }
    }
}

/// Adds each of `tags` to the known tag names.
fn add_known(known: &mut Vec<String>, tags: &[String])
    requires
        distinct_names(views(old(known)@)),
    ensures
        views(final(known)@) == with_tags(views(old(known)@), views(tags@)),
        distinct_names(views(final(known)@)),
{
    let ghost start = views(known@);
    let mut k: usize = 0;
    while k < tags.len()
        invariant
            k <= tags@.len(),
            views(known@) == with_tags(start, views(tags@).take(k as int)),
            distinct_names(views(known@)),
        decreases tags@.len() - k,
    {
        assert(views(tags@).take(k + 1).drop_last() =~= views(tags@).take(k as int));
        assert(views(tags@).take(k + 1).last() == tags@[k as int]@);
        proof {
            lemma_with_tag(views(known@), tags@[k as int]@);
        }
        add_tag(known, tags[k].as_str());
        k = k + 1;
    }
    assert(views(tags@).take(tags@.len() as int) =~= views(tags@));
}

/// Attaches `tags` to the wordlist with the given id. An automatic tagging (`is_manual` false)
/// first drops the wordlist's automatic tags, so that tags attached by hand survive; an
/// existing tag of the same name takes the new manual flag. The names become known.
pub fn set_tags_for_wordlist(index: &mut Index, wordlist_id: i64, tags: &[String], is_manual: bool) -> (r: Result<(), WlError>)
    ensures
        r is Ok,
        final(index).known() == with_tags(old(index).known(), views(tags@)),
        has_id(old(index).rows(), wordlist_id) ==> relinked(
            old(index).rows(),
            final(index).rows(),
            id_pos(old(index).rows(), wordlist_id),
            retag(
                link_views(old(index).rows()[id_pos(old(index).rows(), wordlist_id)].links@),
                views(tags@),
                is_manual,
            ),
        ),
        !has_id(old(index).rows(), wordlist_id) ==> final(index).rows() == old(index).rows(),
{
    let (mut rows, mut known) = index.take();
    let ghost old_rows = rows@;
    let ghost old_known = views(known@);
    add_known(&mut known, tags);
    proof {
        lemma_with_tags(old_known, views(tags@));
    }
    match find_id(&rows, wordlist_id) {
        Some(i) => {
            proof {
                lemma_id_pos(old_rows, old_known, i as int, wordlist_id);
            }
            let row = rows.remove(i);
            let ghost old_links = link_views(row.links@);
            let IndexedWordlist { entry, links } = row;
            rows.insert(i, IndexedWordlist { entry, links: Vec::new() });
            let mut links = if is_manual {
                links
            } else {
                keep_manual(links)
            };
            let ghost base = link_views(links@);
            proof {
                lemma_manual_links(old_links);
            }
            assert(distinct_names(link_names(base)));
            let mut k: usize = 0;
            while k < tags.len()
                invariant
                    k <= tags@.len(),
                    distinct_names(link_names(base)),
                    link_views(links@) == put_links(base, views(tags@).take(k as int), is_manual),
                decreases tags@.len() - k,
            {
                assert(views(tags@).take(k + 1).drop_last() =~= views(tags@).take(k as int));
                assert(views(tags@).take(k + 1).last() == tags@[k as int]@);
                proof {
                    lemma_put_links(base, views(tags@).take(k as int), is_manual);
                }
                put_link_exec(&mut links, tags[k].as_str(), is_manual);
                k = k + 1;
            }
            assert(views(tags@).take(tags@.len() as int) =~= views(tags@));
            let ghost nl = link_views(links@);
            proof {
                lemma_put_links(base, views(tags@), is_manual);
                lemma_with_tags(link_names(base), views(tags@));
                assert forall|x: Seq<char>| link_names(nl).contains(x) implies views(known@).contains(x) by {
                    if link_names(base).contains(x) {
                        let k = choose|k: int| 0 <= k < link_names(base).len() && link_names(base)[k] == x;
                        let ghost pair = base[k];
                        if !is_manual {
                            assert(old_links.contains(manual_links(old_links)[k]));
                            let m = choose|m: int| 0 <= m < old_links.len() && old_links[m] == pair;
                            assert(old_rows[i as int].links@[m].tag@ == x);
                        } else {
                            assert(old_rows[i as int].links@[k].tag@ == x);
                        }
                        assert(old_known.contains(x));
                    }
                }
            }
            replace_links(&mut rows, i, links);
            proof {
                assert(rows@[i as int].entry == old_rows[i as int].entry);
                assert forall|j: int| 0 <= j < old_rows.len() && j != i implies rows@[j] == old_rows[j] by {}
                lemma_relink_wf(old_rows, rows@, old_known, views(known@), i as int, nl);
            }
        },
        None => {
            assert(index_wf(rows@, views(known@))) by {
                assert forall|a: int, k: int| 0 <= a < rows@.len() && 0 <= k < rows@[a].links@.len() implies views(known@).contains(
                    (#[trigger] rows@[a].links@[k]).tag@,
                ) by {
                    assert(old_known.contains(rows@[a].links@[k].tag@));
                }
            }
        },
    }
    *index = Index { rows, known };
    Ok(())
}


/// Attaches `tag` by hand to the wordlist with the given id; the name becomes known.
pub fn add_tag_to_wordlist(index: &mut Index, wordlist_id: i64, tag: &str) -> (r: Result<(), WlError>)
    ensures
        r is Ok,
        final(index).known() == with_tag(old(index).known(), tag@),
        has_id(old(index).rows(), wordlist_id) ==> relinked(
            old(index).rows(),
            final(index).rows(),
            id_pos(old(index).rows(), wordlist_id),
            put_link(
                link_views(old(index).rows()[id_pos(old(index).rows(), wordlist_id)].links@),
                tag@,
                true,
            ),
        ),
        !has_id(old(index).rows(), wordlist_id) ==> final(index).rows() == old(index).rows(),
{
    let ghost ok = index.known();
    let tags = vec![tag.to_owned()];
    assert(views(tags@) =~= seq![tag@]);
    assert(seq![tag@].drop_last() =~= Seq::<Seq<char>>::empty());
    assert(seq![tag@].last() == tag@);
    assert(with_tags(ok, seq![tag@].drop_last()) == ok);
    assert(with_tags(ok, seq![tag@]) == with_tag(ok, tag@));
    assert forall|ls: Seq<(Seq<char>, bool)>| #[trigger] retag(ls, seq![tag@], true) == put_link(ls, tag@, true) by {
        assert(put_links(ls, seq![tag@].drop_last(), true) == ls);
    }
    set_tags_for_wordlist(index, wordlist_id, &tags, true)
}

/// Detaches `tag` from the wordlist with the given id. A tag name that was never attached
/// to anything is an error.
pub fn remove_tag_from_wordlist(index: &mut Index, wordlist_id: i64, tag: &str) -> (r: Result<(), WlError>)
    ensures
        r is Err <==> !old(index).known().contains(tag@),
        r matches Err(e) ==> e matches WlError::Db(m) && m@ == "Query returned no rows"@,
        r is Err ==> final(index).rows() == old(index).rows(),
        final(index).known() == old(index).known(),
        r is Ok && has_id(old(index).rows(), wordlist_id) ==> relinked(
            old(index).rows(),
            final(index).rows(),
            id_pos(old(index).rows(), wordlist_id),
            remove_link(
                link_views(old(index).rows()[id_pos(old(index).rows(), wordlist_id)].links@),
                tag@,
            ),
        ),
        r is Ok && !has_id(old(index).rows(), wordlist_id) ==> final(index).rows() == old(index).rows(),
{
    let (mut rows, known) = index.take();
    let ghost old_rows = rows@;
    let ghost kv = views(known@);
    let mut is_known = false;
    let mut k: usize = 0;
    while k < known.len()
        invariant_except_break
            !is_known,
        invariant
            k <= known@.len(),
            kv == views(known@),
            forall|j: int| 0 <= j < k ==> kv[j] != tag@,
        ensures
            is_known ==> kv.contains(tag@),
            !is_known ==> !kv.contains(tag@),
        decreases known@.len() - k,
    {
        if str_eq(known[k].as_str(), tag) {
            is_known = true;
            assert(kv[k as int] == tag@);
            break;
        }
        k = k + 1;
    }
    if !is_known {
        *index = Index { rows, known };
        return Err(WlError::Db(String::from_str("Query returned no rows")));
    }
    assert(kv.contains(tag@));
    match find_id(&rows, wordlist_id) {
        Some(i) => {
            proof {
                lemma_id_pos(old_rows, kv, i as int, wordlist_id);
            }
            let row = rows.remove(i);
            let ghost old_links = link_views(row.links@);
            let IndexedWordlist { entry, mut links } = row;
            rows.insert(i, IndexedWordlist { entry, links: Vec::new() });
            proof {
                lemma_link_pos(old_links, tag@);
            }
            match link_index(&links, tag) {
                Some(p) => {
                    links.remove(p);
                    assert(link_views(links@) =~= old_links.remove(p as int));
                },
                None => {},
            }
            let ghost nl = link_views(links@);
            proof {
                assert(nl == remove_link(old_links, tag@));
                assert forall|x: int, y: int| 0 <= x < y < link_names(nl).len() implies link_names(nl)[x]
                    != link_names(nl)[y] by {
                    let p = link_pos(old_links, tag@);
                    if p >= 0 {
                        let xo = if x < p { x } else { x + 1 };
                        let yo = if y < p { y } else { y + 1 };
                        assert(link_names(nl)[x] == link_names(old_links)[xo]);
                        assert(link_names(nl)[y] == link_names(old_links)[yo]);
                    } else {
                        assert(link_names(nl)[x] == link_names(old_links)[x]);
                    }
                }
                assert forall|x: Seq<char>| link_names(nl).contains(x) implies kv.contains(x) by {
                    let j = choose|j: int| 0 <= j < link_names(nl).len() && link_names(nl)[j] == x;
                    let p = link_pos(old_links, tag@);
                    let jo = if p >= 0 && j >= p { j + 1 } else { j };
                    assert(link_names(nl)[j] == old_rows[i as int].links@[jo].tag@);
                }
            }
            replace_links(&mut rows, i, links);
            proof {
                lemma_relink_wf(old_rows, rows@, kv, kv, i as int, nl);
            }
        },
        None => {},
    }
    *index = Index { rows, known };
    Ok(())
}

/// Facts about `max_id`.
pub proof fn lemma_max_id(rows: Seq<IndexedWordlist>)
    ensures
        max_id(rows) >= 0,
        max_id(rows) <= i64::MAX,
        forall|i: int| 0 <= i < rows.len() && rows[i].entry.id is Some ==> (#[trigger] rows[i]).entry.id->0
            <= max_id(rows),
    decreases rows.len(),
{
    if rows.len() > 0 {
        lemma_max_id(rows.drop_last());
        assert forall|i: int| 0 <= i < rows.len() && rows[i].entry.id is Some implies (#[trigger] rows[i]).entry.id->0
            <= max_id(rows) by {
            if i < rows.len() - 1 {
                assert(rows.drop_last()[i] == rows[i]);
            }
        }
    }
}

proof fn lemma_max_id_step(rows: Seq<IndexedWordlist>, i: int)
    requires
        0 <= i < rows.len(),
    ensures
        max_id(rows.take(i + 1)) == ({
            let m = max_id(rows.take(i));
            let v = match rows[i].entry.id {
                Some(x) => x as int,
                None => 0,
            };
            if v > m {
                v
            } else {
                m
            }
        }),
{
    assert(rows.take(i + 1).drop_last() =~= rows.take(i));
    assert(rows.take(i + 1).last() == rows[i]);
}

/// The largest id in use, or 0.
fn largest_id(rows: &Vec<IndexedWordlist>) -> (r: i64)
    ensures
        r == max_id(rows@),
{
    let mut m: i64 = 0;
    let mut i: usize = 0;
    while i < rows.len()
        invariant
            i <= rows@.len(),
            m == max_id(rows@.take(i as int)),
            m >= 0,
        decreases rows@.len() - i,
    {
        assert(rows@.take(i + 1).drop_last() =~= rows@.take(i as int));
        assert(rows@.take(i + 1).last() == rows@[i as int]);
        let ghost prev = m;
        match rows[i].entry.id {
            Some(x) => {
                if x > m {
                    m = x;
                }
            },
            None => {},
        }
        proof {
            lemma_max_id_step(rows@, i as int);
        }
        i = i + 1;
    }
    assert(rows@.take(i as int) =~= rows@);
    m
}

/// Replacing an entry by one with the same path and id keeps the index valid.
proof fn lemma_replace_entry_wf(
    old_rows: Seq<IndexedWordlist>,
    rows: Seq<IndexedWordlist>,
    kv: Seq<Seq<char>>,
    k: int,
)
    requires
        index_wf(old_rows, kv),
        0 <= k < old_rows.len(),
        rows == old_rows.update(k, rows[k]),
        rows[k].entry.path@ == old_rows[k].entry.path@,
        rows[k].entry.id == old_rows[k].entry.id,
        rows[k].links == old_rows[k].links,
    ensures
        index_wf(rows, kv),
{
    assert forall|a: int, b: int| 0 <= a < b < rows.len() implies seq_lt(
        #[trigger] rows[a].entry.path@,
        #[trigger] rows[b].entry.path@,
    ) by {
        assert(old_rows[a].entry.path@ == rows[a].entry.path@);
        assert(old_rows[b].entry.path@ == rows[b].entry.path@);
    }
    assert forall|a: int, b: int|
        0 <= a < rows.len() && 0 <= b < rows.len() && a != b implies #[trigger] rows[a].entry.id
        != #[trigger] rows[b].entry.id by {
        assert(old_rows[a].entry.id == rows[a].entry.id);
        assert(old_rows[b].entry.id == rows[b].entry.id);
    }
    assert forall|a: int| 0 <= a < rows.len() implies distinct_names(
        link_names(link_views((#[trigger] rows[a]).links@)),
    ) by {
        assert(old_rows[a].links == rows[a].links);
    }
    assert forall|a: int, j: int| 0 <= a < rows.len() && 0 <= j < rows[a].links@.len() implies kv.contains(
        (#[trigger] rows[a].links@[j]).tag@,
    ) by {
        assert(old_rows[a].links == rows[a].links);
        assert(kv.contains(old_rows[a].links@[j].tag@));
    }
}

/// Inserting an untagged entry with a fresh id at its place in path order keeps the index valid.
proof fn lemma_insert_entry_wf(
    old_rows: Seq<IndexedWordlist>,
    rows: Seq<IndexedWordlist>,
    kv: Seq<Seq<char>>,
    k: int,
)
    requires
        index_wf(old_rows, kv),
        0 <= k <= old_rows.len(),
        rows == old_rows.insert(k, rows[k]),
        forall|j: int| 0 <= j < k ==> seq_lt(#[trigger] old_rows[j].entry.path@, rows[k].entry.path@),
        forall|j: int| k <= j < old_rows.len() ==> seq_lt(rows[k].entry.path@, #[trigger] old_rows[j].entry.path@),
        rows[k].entry.id is Some,
        !has_id(old_rows, rows[k].entry.id->0),
        rows[k].links@.len() == 0,
    ensures
        index_wf(rows, kv),
{
    let path = rows[k].entry.path@;
    assert forall|a: int, b: int| 0 <= a < b < rows.len() implies seq_lt(
        #[trigger] rows[a].entry.path@,
        #[trigger] rows[b].entry.path@,
    ) by {
        if b < k {
            assert(rows[a] == old_rows[a] && rows[b] == old_rows[b]);
        } else if b == k {
            assert(rows[a] == old_rows[a]);
        } else if a == k {
            assert(rows[b] == old_rows[b - 1]);
        } else if a < k {
            assert(rows[a] == old_rows[a] && rows[b] == old_rows[b - 1]);
            lemma_seq_lt_transitive(old_rows[a].entry.path@, path, old_rows[b - 1].entry.path@);
        } else {
            assert(rows[a] == old_rows[a - 1] && rows[b] == old_rows[b - 1]);
        }
    }
    assert forall|a: int| 0 <= a < rows.len() implies (#[trigger] rows[a]).entry.id is Some by {
        if a < k {
            assert(rows[a] == old_rows[a]);
        } else if a > k {
            assert(rows[a] == old_rows[a - 1]);
        }
    }
    assert forall|a: int, b: int|
        0 <= a < rows.len() && 0 <= b < rows.len() && a != b implies #[trigger] rows[a].entry.id
        != #[trigger] rows[b].entry.id by {
        let ao = if a < k { a } else { a - 1 };
        let bo = if b < k { b } else { b - 1 };
        if a != k {
            assert(rows[a] == old_rows[ao]);
        }
        if b != k {
            assert(rows[b] == old_rows[bo]);
        }
        if a == k && b != k {
            assert(old_rows[bo].entry.id != Some(rows[k].entry.id->0));
        }
        if b == k && a != k {
            assert(old_rows[ao].entry.id != Some(rows[k].entry.id->0));
        }
    }
    assert forall|a: int| 0 <= a < rows.len() implies distinct_names(
        link_names(link_views((#[trigger] rows[a]).links@)),
    ) by {
        if a < k {
            assert(rows[a] == old_rows[a]);
        } else if a > k {
            assert(rows[a] == old_rows[a - 1]);
        } else {
            assert(link_names(link_views(rows[a].links@)) =~= Seq::<Seq<char>>::empty());
        }
    }
    assert forall|a: int, j: int| 0 <= a < rows.len() && 0 <= j < rows[a].links@.len() implies kv.contains(
        (#[trigger] rows[a].links@[j]).tag@,
    ) by {
        if a < k {
            assert(rows[a] == old_rows[a]);
            assert(kv.contains(old_rows[a].links@[j].tag@));
        } else if a > k {
            assert(rows[a] == old_rows[a - 1]);
            assert(kv.contains(old_rows[a - 1].links@[j].tag@));
        }
    }
}

/// `after` is `before` with `entry` stored under id `id`: an entry already at its path is
/// replaced in place (keeping id and tags); otherwise the entry is inserted, untagged.
pub open spec fn upserted(
    before: Seq<IndexedWordlist>,
    after: Seq<IndexedWordlist>,
    entry: WordlistEntry,
    id: i64,
) -> bool {
    &&& has_path(before, entry.path@) ==> {
        let i = path_pos(before, entry.path@);
        &&& before[i].entry.id == Some(id)
        &&& after == before.update(
            i,
            (IndexedWordlist { entry: WordlistEntry { id: before[i].entry.id, ..entry }, links: before[i].links }),
        )
    }
    &&& !has_path(before, entry.path@) ==> exists|k: int|
        0 <= k <= before.len() && after.len() == before.len() + 1 && after.remove(k) == before
            && after[k].entry == (WordlistEntry { id: Some(id), ..entry }) && after[k].links@.len() == 0
}

/// Stores an entry by its path. An entry whose path is already indexed is replaced in place:
/// it keeps its id and its tags. A new path gets the id one above the largest in use, no tags,
/// and its place in path order; when the largest id is already `i64::MAX` the store is full.
pub fn upsert(index: &mut Index, entry: &WordlistEntry) -> (r: Result<i64, WlError>)
    ensures
        final(index).known() == old(index).known(),
        has_path(old(index).rows(), entry.path@) ==> {
            let i = path_pos(old(index).rows(), entry.path@);
            let old_row = old(index).rows()[i];
            &&& r matches Ok(id) && old_row.entry.id == Some(id)
            &&& final(index).rows() == old(index).rows().update(
                i,
                IndexedWordlist {
                    entry: WordlistEntry { id: old_row.entry.id, ..*entry },
                    links: old_row.links,
                },
            )
        },
        !has_path(old(index).rows(), entry.path@) && max_id(old(index).rows()) < i64::MAX ==> {
            &&& r matches Ok(id)
            &&& id == max_id(old(index).rows()) + 1
            &&& !has_id(old(index).rows(), id)
            &&& exists|k: int|
                0 <= k <= old(index).rows().len() && final(index).rows().len() == old(
                    index,
                ).rows().len() + 1 && final(index).rows().remove(k) == old(index).rows()
                    && final(index).rows()[k].entry == (WordlistEntry { id: Some(id), ..*entry })
                    && final(index).rows()[k].links@.len() == 0
        },
        r matches Ok(id) ==> upserted(old(index).rows(), final(index).rows(), *entry, id),
        r is Err ==> final(index).rows() == old(index).rows(),
        !has_path(old(index).rows(), entry.path@) && max_id(old(index).rows()) == i64::MAX ==> {
            &&& r matches Err(e) && e matches WlError::Db(m) && m@ == "database or disk is full"@
            &&& final(index).rows() == old(index).rows()
        },
{
    let (mut rows, known) = index.take();
    let ghost old_rows = rows@;
    let ghost kv = views(known@);
    let (k, found) = locate(&rows, entry.path.as_str());
    if found {
        proof {
            lemma_path_pos(old_rows, kv, k as int);
        }
        let row = rows.remove(k);
        let IndexedWordlist { entry: old_entry, links } = row;
        let id = old_entry.id.unwrap();
        let new_entry = entry.with_id(id);
        rows.insert(k, IndexedWordlist { entry: new_entry, links });
        assert(rows@ =~= old_rows.update(k as int, rows@[k as int]));
        proof {
            lemma_replace_entry_wf(old_rows, rows@, kv, k as int);
        }
        *index = Index { rows, known };
        return Ok(id);
    }
    proof {
        assert forall|j: int| 0 <= j < old_rows.len() implies old_rows[j].entry.path@ != entry.path@ by {
            if j < k {
                assert(seq_lt(old_rows[j].entry.path@, entry.path@));
            } else {
                assert(seq_lt(entry.path@, old_rows[j].entry.path@));
            }
            lemma_seq_lt_irreflexive(entry.path@);
        }
    }
    let m = largest_id(&rows);
    if m == i64::MAX {
        *index = Index { rows, known };
        return Err(WlError::Db(String::from_str("database or disk is full")));
    }
    let id = m + 1;
    proof {
        lemma_max_id(old_rows);
        assert forall|j: int| 0 <= j < old_rows.len() implies old_rows[j].entry.id != Some(id) by {
            assert(old_rows[j].entry.id is Some);
        }
    }
    let new_entry = entry.with_id(id);
    rows.insert(k, IndexedWordlist { entry: new_entry, links: Vec::new() });
    proof {
        assert(rows@.remove(k as int) =~= old_rows);
        lemma_insert_entry_wf(old_rows, rows@, kv, k as int);
        assert(rows@[k as int].entry == WordlistEntry { id: Some(id), ..*entry });
        assert(0 <= k <= old_rows.len() && rows@.len() == old_rows.len() + 1 && rows@.remove(k as int)
            == old_rows && rows@[k as int].entry == WordlistEntry {
            id: Some((max_id(old_rows) + 1) as i64),
            ..*entry
        } && rows@[k as int].links@.len() == 0);
    }
    let ghost new_rows = rows@;
    *index = Index { rows, known };
    assert(index.rows() == new_rows);
    assert(0 <= k <= old_rows.len() && index.rows().len() == old_rows.len() + 1 && index.rows().remove(k as int)
        == old_rows && index.rows()[k as int].entry == WordlistEntry {
        id: Some((max_id(old_rows) + 1) as i64),
        ..*entry
    } && index.rows()[k as int].links@.len() == 0);
    Ok(id)
}


/// Removing a wordlist keeps the index valid.
proof fn lemma_remove_wf(old_rows: Seq<IndexedWordlist>, kv: Seq<Seq<char>>, i: int)
    requires
        index_wf(old_rows, kv),
        0 <= i < old_rows.len(),
    ensures
        index_wf(old_rows.remove(i), kv),
{
    let rows = old_rows.remove(i);
    assert forall|a: int| 0 <= a < rows.len() implies rows[a] == old_rows[if a < i { a } else { a + 1 }] by {}
    assert forall|a: int, b: int| 0 <= a < b < rows.len() implies seq_lt(
        #[trigger] rows[a].entry.path@,
        #[trigger] rows[b].entry.path@,
    ) by {
        let ao = if a < i { a } else { a + 1 };
        let bo = if b < i { b } else { b + 1 };
        assert(rows[a] == old_rows[ao] && rows[b] == old_rows[bo]);
    }
    assert forall|a: int| 0 <= a < rows.len() implies (#[trigger] rows[a]).entry.id is Some by {
        let ao = if a < i { a } else { a + 1 };
        assert(rows[a] == old_rows[ao]);
    }
    assert forall|a: int, b: int|
        0 <= a < rows.len() && 0 <= b < rows.len() && a != b implies #[trigger] rows[a].entry.id
        != #[trigger] rows[b].entry.id by {
        let ao = if a < i { a } else { a + 1 };
        let bo = if b < i { b } else { b + 1 };
        assert(rows[a] == old_rows[ao] && rows[b] == old_rows[bo]);
    }
    assert forall|a: int| 0 <= a < rows.len() implies distinct_names(
        link_names(link_views((#[trigger] rows[a]).links@)),
    ) by {
        let ao = if a < i { a } else { a + 1 };
        assert(rows[a] == old_rows[ao]);
    }
    assert forall|a: int, j: int| 0 <= a < rows.len() && 0 <= j < rows[a].links@.len() implies kv.contains(
        (#[trigger] rows[a].links@[j]).tag@,
    ) by {
        let ao = if a < i { a } else { a + 1 };
        assert(rows[a] == old_rows[ao]);
        assert(kv.contains(old_rows[ao].links@[j].tag@));
    }
}

/// Removes the wordlist with the given path, with its tags.
pub fn delete_entry(index: &mut Index, path: &str) -> (r: Result<(), WlError>)
    ensures
        r is Ok,
        final(index).known() == old(index).known(),
        final(index).rows() == (if has_path(old(index).rows(), path@) {
            old(index).rows().remove(path_pos(old(index).rows(), path@))
        } else {
            old(index).rows()
        }),
{
    let (mut rows, known) = index.take();
    let ghost old_rows = rows@;
    match find_path(&rows, path) {
        Some(i) => {
            proof {
                lemma_path_pos(old_rows, views(known@), i as int);
                lemma_remove_wf(old_rows, views(known@), i as int);
            }
            rows.remove(i);
        },
        None => {},
    }
    *index = Index { rows, known };
    Ok(())
}

/// Whether `path` is one of `paths`.
fn path_listed(paths: &[String], path: &String) -> (r: bool)
    ensures
        r == views(paths@).contains(path@),
{
    let mut j: usize = 0;
    while j < paths.len()
        invariant
            j <= paths@.len(),
            forall|k: int| 0 <= k < j ==> paths@[k]@ != path@,
        decreases paths@.len() - j,
    {
        if paths[j] == *path {
            assert(views(paths@)[j as int] == path@);
            return true;
        }
        j = j + 1;
    }
    assert forall|k: int| 0 <= k < views(paths@).len() implies views(paths@)[k] != path@ by {
        assert(views(paths@)[k] == paths@[k]@);
    }
    false
}

/// Keeps exactly the wordlists whose path is listed; the others go with their tags.
pub fn delete_missing(index: &mut Index, existing_paths: &[String]) -> (r: Result<(), WlError>)
    ensures
        r is Ok,
        final(index).known() == old(index).known(),
        final(index).rows() == old(index).rows().filter(
            |w: IndexedWordlist| views(existing_paths@).contains(w.entry.path@),
        ),
{
    let (mut rows, known) = index.take();
    let ghost old_rows = rows@;
    let ghost kv = views(known@);
    let ghost pred = |w: IndexedWordlist| views(existing_paths@).contains(w.entry.path@);
    let mut i: usize = rows.len();
    assert(old_rows.skip(i as int).filter(pred) =~= Seq::<IndexedWordlist>::empty()) by {
        reveal_with_fuel(Seq::filter, 1);
        assert(old_rows.skip(i as int) =~= Seq::<IndexedWordlist>::empty());
    }
    assert(old_rows.take(i as int) =~= old_rows);
    while i > 0
        invariant
            i <= old_rows.len(),
            pred == (|w: IndexedWordlist| views(existing_paths@).contains(w.entry.path@)),
            rows@ == old_rows.take(i as int) + old_rows.skip(i as int).filter(pred),
            index_wf(rows@, kv),
        decreases i,
    {
        let ghost before = rows@;
        let ghost tail = old_rows.skip(i as int).filter(pred);
        let ghost w = old_rows[i - 1];
        assert(old_rows.skip(i - 1) =~= seq![w] + old_rows.skip(i as int));
        proof {
            Seq::filter_distributes_over_add(seq![w], old_rows.skip(i as int), pred);
            reveal_with_fuel(Seq::filter, 2);
            assert(seq![w].drop_last() =~= Seq::<IndexedWordlist>::empty());
        }
        assert(rows@[i - 1] == w);
        let keep = path_listed(existing_paths, &rows[i - 1].entry.path);
        if keep {
            assert(old_rows.skip(i - 1).filter(pred) =~= seq![w] + tail);
            assert(rows@ =~= old_rows.take(i - 1) + old_rows.skip(i - 1).filter(pred));
        } else {
            proof {
                lemma_remove_wf(before, kv, i - 1);
            }
            rows.remove(i - 1);
            assert(old_rows.skip(i - 1).filter(pred) =~= tail);
            assert(rows@ =~= old_rows.take(i - 1) + old_rows.skip(i - 1).filter(pred));
        }
        i = i - 1;
    }
    assert(rows@ =~= old_rows.filter(pred)) by {
        assert(old_rows.skip(0) =~= old_rows);
    }
    *index = Index { rows, known };
    Ok(())
}

/// Restores one stored wordlist, with its id. An entry without an id, or whose id or path is
/// already present, is refused.
pub fn load_entry(index: &mut Index, entry: WordlistEntry) -> (r: Result<(), WlError>)
    ensures
        final(index).known() == old(index).known(),
        r is Ok <==> (entry.id is Some && !has_id(old(index).rows(), entry.id->0) && !has_path(
            old(index).rows(),
            entry.path@,
        )),
        r is Err ==> final(index).rows() == old(index).rows(),
        r is Ok ==> exists|k: int|
            0 <= k <= old(index).rows().len() && final(index).rows().len() == old(index).rows().len() + 1
                && final(index).rows().remove(k) == old(index).rows() && final(index).rows()[k].entry
                == entry && final(index).rows()[k].links@.len() == 0,
{
    let (mut rows, known) = index.take();
    let ghost old_rows = rows@;
    let ghost kv = views(known@);
    let id = match entry.id {
        Some(x) => x,
        None => {
            *index = Index { rows, known };
            return Err(WlError::Db(String::from_str("stored wordlist has no id")));
        },
    };
    if find_id(&rows, id).is_some() {
        *index = Index { rows, known };
        return Err(WlError::Db(String::from_str("stored wordlist id is repeated")));
    }
    let (k, found) = locate(&rows, entry.path.as_str());
    if found {
        *index = Index { rows, known };
        return Err(WlError::Db(String::from_str("stored wordlist path is repeated")));
    }
    proof {
        assert forall|j: int| 0 <= j < old_rows.len() implies old_rows[j].entry.path@ != entry.path@ by {
            if j < k {
                assert(seq_lt(old_rows[j].entry.path@, entry.path@));
            } else {
                assert(seq_lt(entry.path@, old_rows[j].entry.path@));
            }
            lemma_seq_lt_irreflexive(entry.path@);
        }
    }
    rows.insert(k, IndexedWordlist { entry, links: Vec::new() });
    proof {
        assert(rows@.remove(k as int) =~= old_rows);
        lemma_insert_entry_wf(old_rows, rows@, kv, k as int);
    }
    let ghost new_rows = rows@;
    *index = Index { rows, known };
    assert(index.rows() == new_rows);
    assert(0 <= k <= old_rows.len() && index.rows().len() == old_rows.len() + 1 && index.rows().remove(
        k as int,
    ) == old_rows && index.rows()[k as int].entry == entry && index.rows()[k as int].links@.len() == 0);
    Ok(())
}

/// Records a tag name as known without attaching it to anything.
pub fn register_tag(index: &mut Index, tag: &str)
    ensures
        final(index).rows() == old(index).rows(),
        final(index).known() == with_tag(old(index).known(), tag@),
{
    let (rows, mut known) = index.take();
    let ghost kv = views(known@);
    proof {
        lemma_with_tag(kv, tag@);
    }
    add_tag(&mut known, tag);
    assert forall|a: int, k: int| 0 <= a < rows@.len() && 0 <= k < rows@[a].links@.len() implies views(known@).contains(
        (#[trigger] rows@[a].links@[k]).tag@,
    ) by {
        assert(kv.contains(rows@[a].links@[k].tag@));
    }
    *index = Index { rows, known };
}

/// Restores one stored tag link: `tag` is attached to the wordlist with the given id with the
/// given manual flag (a link of that name already there takes the flag); the name becomes known.
pub fn load_link(index: &mut Index, wordlist_id: i64, tag: &str, manual: bool)
    ensures
        final(index).known() == with_tag(old(index).known(), tag@),
        has_id(old(index).rows(), wordlist_id) ==> relinked(
            old(index).rows(),
            final(index).rows(),
            id_pos(old(index).rows(), wordlist_id),
            put_link(
                link_views(old(index).rows()[id_pos(old(index).rows(), wordlist_id)].links@),
                tag@,
                manual,
            ),
        ),
        !has_id(old(index).rows(), wordlist_id) ==> final(index).rows() == old(index).rows(),
{
    let (mut rows, mut known) = index.take();
    let ghost old_rows = rows@;
    let ghost old_known = views(known@);
    proof {
        lemma_with_tag(old_known, tag@);
    }
    add_tag(&mut known, tag);
    match find_id(&rows, wordlist_id) {
        Some(i) => {
            proof {
                lemma_id_pos(old_rows, old_known, i as int, wordlist_id);
            }
            let row = rows.remove(i);
            let ghost old_links = link_views(row.links@);
            let IndexedWordlist { entry, links } = row;
            rows.insert(i, IndexedWordlist { entry, links: Vec::new() });
            let mut links = links;
            assert(distinct_names(link_names(old_links)));
            put_link_exec(&mut links, tag, manual);
            let ghost nl = link_views(links@);
            proof {
                lemma_put_link(old_links, tag@, manual);
                lemma_with_tag(link_names(old_links), tag@);
                assert forall|x: Seq<char>| link_names(nl).contains(x) implies views(known@).contains(x) by {
                    if link_names(old_links).contains(x) {
                        let k = choose|k: int| 0 <= k < link_names(old_links).len() && link_names(old_links)[k] == x;
                        assert(old_rows[i as int].links@[k].tag@ == x);
                        assert(old_known.contains(x));
                    }
                }
            }
            replace_links(&mut rows, i, links);
            proof {
                assert forall|j: int| 0 <= j < old_rows.len() && j != i implies rows@[j] == old_rows[j] by {}
                lemma_relink_wf(old_rows, rows@, old_known, views(known@), i as int, nl);
            }
        },
        None => {
            assert(index_wf(rows@, views(known@))) by {
                assert forall|a: int, k: int| 0 <= a < rows@.len() && 0 <= k < rows@[a].links@.len() implies views(known@).contains(
                    (#[trigger] rows@[a].links@[k]).tag@,
                ) by {
                    assert(old_known.contains(rows@[a].links@[k].tag@));
                }
            }
        },
    }
    *index = Index { rows, known };
}

/// Every known tag name.
pub fn known_tags(index: &Index) -> (r: Vec<String>)
    ensures
        views(r@) == index.known(),
{
    let mut out: Vec<String> = Vec::new();
    let mut i: usize = 0;
    while i < index.known.len()
        invariant
            i <= index.known@.len(),
            views(out@) == views(index.known@.take(i as int)),
        decreases index.known@.len() - i,
    {
        out.push(index.known[i].clone());
        i = i + 1;
        assert(views(index.known@.take(i as int)) =~= views(index.known@.take(i - 1)).push(index.known@[i - 1]@));
        assert(views(out@) =~= views(out@.drop_last()).push(out@.last()@));
    }
    assert(index.known@.take(i as int) =~= index.known@);
    out
}

/// The tags of the wordlist with the given id with their manual flags.
pub fn get_tag_links(index: &Index, wordlist_id: i64) -> (r: Vec<(String, bool)>)
    ensures
        r@.map_values(|p: (String, bool)| (p.0@, p.1)) == (if has_id(index.rows(), wordlist_id) {
            link_views(index.rows()[id_pos(index.rows(), wordlist_id)].links@)
        } else {
            Seq::empty()
        }),
{
    proof {
        use_type_invariant(index);
    }
    let mut out: Vec<(String, bool)> = Vec::new();
    match find_id(&index.rows, wordlist_id) {
        Some(i) => {
            proof {
                lemma_id_pos(index.rows@, views(index.known@), i as int, wordlist_id);
            }
            let links = &index.rows[i].links;
            let mut k: usize = 0;
            while k < links.len()
                invariant
                    k <= links@.len(),
                    out@.map_values(|p: (String, bool)| (p.0@, p.1)) == link_views(links@.take(k as int)),
                decreases links@.len() - k,
            {
                let ghost before = out@;
                out.push((links[k].tag.clone(), links[k].manual));
                k = k + 1;
                assert(link_views(links@.take(k as int)) =~= link_views(links@.take(k - 1)).push(
                    (links@[k - 1].tag@, links@[k - 1].manual),
                ));
                assert(out@.map_values(|p: (String, bool)| (p.0@, p.1)) =~= before.map_values(
                    |p: (String, bool)| (p.0@, p.1),
                ).push((links@[k - 1].tag@, links@[k - 1].manual)));
            }
            assert(links@.take(k as int) =~= links@);
        },
        None => {
            assert(out@.map_values(|p: (String, bool)| (p.0@, p.1)) =~= Seq::<(Seq<char>, bool)>::empty());
        },
    }
    out
}


/// After the tags of one wordlist change, `tags_of` gives the new names for it and the old
/// names for every other wordlist.
pub proof fn lemma_relinked_tags_of(
    before: Seq<IndexedWordlist>,
    after: Seq<IndexedWordlist>,
    known_before: Seq<Seq<char>>,
    known_after: Seq<Seq<char>>,
    id: i64,
    links: Seq<(Seq<char>, bool)>,
)
    requires
        index_wf(before, known_before),
        index_wf(after, known_after),
        has_id(before, id),
        relinked(before, after, id_pos(before, id), links),
    ensures
        has_id(after, id),
        tags_of(after, id) == link_names(links),
        forall|other: i64| other != id ==> tags_of(after, other) == tags_of(before, other),
{
    let p = id_pos(before, id);
    assert(after[p].entry.id == Some(id));
    lemma_id_pos(after, known_after, p, id);
    assert forall|other: i64| other != id implies tags_of(after, other) == tags_of(before, other) by {
        if has_id(before, other) {
            let q = id_pos(before, other);
            assert(q != p);
            assert(after[q] == before[q]);
            lemma_id_pos(after, known_after, q, other);
        }
        if has_id(after, other) {
            let q = id_pos(after, other);
            assert(q != p);
            assert(after[q] == before[q]);
            lemma_id_pos(before, known_before, q, other);
        }
    }
}

/// An automatic re-tagging keeps every tag attached by hand: afterwards the names are exactly
/// the hand-made ones and the automatic ones. This is what re-indexing a file does to its tags.
pub proof fn law_retag_keeps_manual_tags(old_links: Seq<(Seq<char>, bool)>, auto: Seq<Seq<char>>)
    requires
        distinct_names(link_names(old_links)),
    ensures
        forall|t: Seq<char>| old_links.contains((t, true)) ==> link_names(retag(old_links, auto, false)).contains(t),
        forall|t: Seq<char>| auto.contains(t) ==> link_names(retag(old_links, auto, false)).contains(t),
        forall|t: Seq<char>|
            link_names(retag(old_links, auto, false)).contains(t) ==> auto.contains(t) || old_links.contains((t, true)),
{
    let base = manual_links(old_links);
    lemma_manual_links(old_links);
    lemma_put_links(base, auto, false);
    lemma_with_tags(link_names(base), auto);
    assert(retag(old_links, auto, false) == put_links(base, auto, false));
    assert forall|t: Seq<char>| old_links.contains((t, true)) implies link_names(
        retag(old_links, auto, false),
    ).contains(t) by {
        let i = choose|i: int| 0 <= i < old_links.len() && old_links[i] == (t, true);
        assert(base.contains(old_links[i]));
        let k = choose|k: int| 0 <= k < base.len() && base[k] == old_links[i];
        assert(link_names(base)[k] == t);
        assert(link_names(base).contains(t));
        assert(with_tags(link_names(base), auto).contains(t));
    }
    assert forall|t: Seq<char>| link_names(retag(old_links, auto, false)).contains(t) implies auto.contains(t)
        || old_links.contains((t, true)) by {
        if link_names(base).contains(t) {
            let k = choose|k: int| 0 <= k < link_names(base).len() && link_names(base)[k] == t;
            assert(base[k].1);
            assert(old_links.contains(base[k]));
            assert(base[k] == (t, true));
        }
    }
}

/// Attaching a tag keeps every tag attached by hand, still marked as attached by hand.
proof fn lemma_put_link_keeps_manual(ls: Seq<(Seq<char>, bool)>, x: Seq<char>, m: bool, t: Seq<char>)
    requires
        distinct_names(link_names(ls)),
        ls.contains((t, true)),
    ensures
        put_link(ls, x, m).contains((t, true)),
{
    lemma_link_pos(ls, x);
    let i = choose|i: int| 0 <= i < ls.len() && ls[i] == (t, true);
    let p = link_pos(ls, x);
    if p >= 0 {
        if p == i {
            assert(put_link(ls, x, m)[i] == (t, true));
        } else {
            assert(put_link(ls, x, m)[i] == ls[i]);
        }
    } else {
        assert(put_link(ls, x, m)[i] == ls[i]);
    }
}

/// Attaching several tags keeps every tag attached by hand, still marked so.
proof fn lemma_put_links_keeps_manual(ls: Seq<(Seq<char>, bool)>, ts: Seq<Seq<char>>, m: bool, t: Seq<char>)
    requires
        distinct_names(link_names(ls)),
        ls.contains((t, true)),
    ensures
        put_links(ls, ts, m).contains((t, true)),
    decreases ts.len(),
{
    if ts.len() > 0 {
        lemma_put_links_keeps_manual(ls, ts.drop_last(), m, t);
        lemma_put_links(ls, ts.drop_last(), m);
        lemma_put_link_keeps_manual(put_links(ls, ts.drop_last(), m), ts.last(), m, t);
    }
}

/// An automatic re-tagging never turns a tag attached by hand into an automatic one: every
/// pair (t, manual) is still there afterwards, so a later automatic re-tagging keeps it too.
pub proof fn law_retag_keeps_manual_flags(old_links: Seq<(Seq<char>, bool)>, auto: Seq<Seq<char>>, t: Seq<char>)
    requires
        distinct_names(link_names(old_links)),
        old_links.contains((t, true)),
    ensures
        retag(old_links, auto, false).contains((t, true)),
{
    let base = manual_links(old_links);
    lemma_manual_links(old_links);
    let i = choose|i: int| 0 <= i < old_links.len() && old_links[i] == (t, true);
    assert(base.contains(old_links[i]));
    lemma_put_links_keeps_manual(base, auto, false, t);
}

/// Tags attached by hand survive an automatic re-tagging of a wordlist of the index: after
/// `set_tags_for_wordlist(index, id, auto, false)` the wordlist carries exactly its hand-made
/// tags and the automatic ones.
pub proof fn law_manual_tags_survive_auto_retag(
    before: Seq<IndexedWordlist>,
    after: Seq<IndexedWordlist>,
    known_before: Seq<Seq<char>>,
    known_after: Seq<Seq<char>>,
    id: i64,
    auto: Seq<Seq<char>>,
)
    requires
        index_wf(before, known_before),
        index_wf(after, known_after),
        has_id(before, id),
        relinked(
            before,
            after,
            id_pos(before, id),
            retag(link_views(before[id_pos(before, id)].links@), auto, false),
        ),
    ensures
        forall|t: Seq<char>|
            link_views(before[id_pos(before, id)].links@).contains((t, true)) ==> tags_of(after, id).contains(t),
        forall|t: Seq<char>| auto.contains(t) ==> tags_of(after, id).contains(t),
        forall|t: Seq<char>|
            tags_of(after, id).contains(t) ==> auto.contains(t) || link_views(
                before[id_pos(before, id)].links@,
            ).contains((t, true)),
{
    let old_links = link_views(before[id_pos(before, id)].links@);
    lemma_relinked_tags_of(before, after, known_before, known_after, id, retag(old_links, auto, false));
    law_retag_keeps_manual_tags(old_links, auto);
}

/// A tag attached by hand is among the wordlist's tags afterwards.
pub proof fn law_added_tag_is_listed(
    before: Seq<IndexedWordlist>,
    after: Seq<IndexedWordlist>,
    known_before: Seq<Seq<char>>,
    known_after: Seq<Seq<char>>,
    id: i64,
    tag: Seq<char>,
)
    requires
        index_wf(before, known_before),
        index_wf(after, known_after),
        has_id(before, id),
        relinked(before, after, id_pos(before, id), put_link(link_views(before[id_pos(before, id)].links@), tag, true)),
    ensures
        tags_of(after, id).contains(tag),
        forall|t: Seq<char>| tags_of(before, id).contains(t) ==> tags_of(after, id).contains(t),
{
    let old_links = link_views(before[id_pos(before, id)].links@);
    lemma_relinked_tags_of(before, after, known_before, known_after, id, put_link(old_links, tag, true));
    lemma_put_link(old_links, tag, true);
    lemma_with_tag(link_names(old_links), tag);
}

/// A removed tag is no longer among the wordlist's tags, and the others stay.
pub proof fn law_removed_tag_is_gone(
    before: Seq<IndexedWordlist>,
    after: Seq<IndexedWordlist>,
    known_before: Seq<Seq<char>>,
    known_after: Seq<Seq<char>>,
    id: i64,
    tag: Seq<char>,
)
    requires
        index_wf(before, known_before),
        index_wf(after, known_after),
        has_id(before, id),
        relinked(before, after, id_pos(before, id), remove_link(link_views(before[id_pos(before, id)].links@), tag)),
    ensures
        !tags_of(after, id).contains(tag),
        forall|t: Seq<char>| tags_of(before, id).contains(t) && t != tag ==> tags_of(after, id).contains(t),
{
    let p = id_pos(before, id);
    let old_links = link_views(before[p].links@);
    let nl = remove_link(old_links, tag);
    lemma_relinked_tags_of(before, after, known_before, known_after, id, nl);
    lemma_link_pos(old_links, tag);
    assert(distinct_names(link_names(old_links)));
    let q = link_pos(old_links, tag);
    assert forall|k: int| 0 <= k < link_names(nl).len() implies link_names(nl)[k] != tag by {
        if q >= 0 {
            let ko = if k < q { k } else { k + 1 };
            assert(link_names(nl)[k] == link_names(old_links)[ko]);
            assert(link_names(old_links)[q] == tag);
        } else {
            assert(link_names(nl)[k] == old_links[k].0);
        }
    }
    assert forall|t: Seq<char>| tags_of(before, id).contains(t) && t != tag implies tags_of(after, id).contains(t) by {
        let k = choose|k: int| 0 <= k < link_names(old_links).len() && link_names(old_links)[k] == t;
        if q >= 0 {
            let kn = if k < q { k } else { k - 1 };
            assert(k != q);
            assert(link_names(nl)[kn] == t);
        } else {
            assert(link_names(nl)[k] == t);
        }
    }
}

/// Storing an entry whose path is already indexed keeps its id and its tags.
pub proof fn law_upsert_keeps_id_and_tags(
    before: Seq<IndexedWordlist>,
    after: Seq<IndexedWordlist>,
    known: Seq<Seq<char>>,
    entry: WordlistEntry,
)
    requires
        index_wf(before, known),
        has_path(before, entry.path@),
        after == before.update(
            path_pos(before, entry.path@),
            IndexedWordlist {
                entry: WordlistEntry { id: before[path_pos(before, entry.path@)].entry.id, ..entry },
                links: before[path_pos(before, entry.path@)].links,
            },
        ),
    ensures
        has_path(after, entry.path@),
        after[path_pos(after, entry.path@)].entry.id == before[path_pos(before, entry.path@)].entry.id,
        forall|id: i64| tags_of(after, id) == tags_of(before, id),
{
    let p = path_pos(before, entry.path@);
    lemma_replace_entry_wf(before, after, known, p);
    lemma_path_pos(after, known, p);
    assert forall|id: i64| tags_of(after, id) == tags_of(before, id) by {
        if has_id(before, id) {
            let q = id_pos(before, id);
            assert(after[q].entry.id == before[q].entry.id);
            lemma_id_pos(after, known, q, id);
        }
        if has_id(after, id) {
            let q = id_pos(after, id);
            assert(after[q].entry.id == before[q].entry.id);
            lemma_id_pos(before, known, q, id);
        }
    }
}


/// Every path but `p` is indexed in `after` exactly when it is in `before`, with the same
/// wordlist (entry and tags).
pub open spec fn same_elsewhere(before: Seq<IndexedWordlist>, after: Seq<IndexedWordlist>, p: Seq<char>) -> bool {
    forall|q: Seq<char>|
        q != p ==> (#[trigger] has_path(after, q) == has_path(before, q)) && (has_path(before, q) ==> after[path_pos(
            after,
            q,
        )] == before[path_pos(before, q)])
}

/// Storing an entry touches no other path.
pub proof fn lemma_upserted_elsewhere(
    before: Seq<IndexedWordlist>,
    after: Seq<IndexedWordlist>,
    known_before: Seq<Seq<char>>,
    known_after: Seq<Seq<char>>,
    entry: WordlistEntry,
    id: i64,
)
    requires
        index_wf(before, known_before),
        index_wf(after, known_after),
        upserted(before, after, entry, id),
    ensures
        same_elsewhere(before, after, entry.path@),
{
    let p = entry.path@;
    if has_path(before, p) {
        let i = path_pos(before, p);
        assert forall|q: Seq<char>| q != p implies (#[trigger] has_path(after, q) == has_path(before, q)) && (
        has_path(before, q) ==> after[path_pos(after, q)] == before[path_pos(before, q)]) by {
            if has_path(after, q) {
                let j = choose|j: int| 0 <= j < after.len() && after[j].entry.path@ == q;
                assert(j != i);
                assert(before[j] == after[j]);
            }
            if has_path(before, q) {
                let j = path_pos(before, q);
                assert(j != i);
                assert(after[j] == before[j]);
                lemma_path_pos(after, known_after, j);
            }
        }
    } else {
        let k = choose|k: int|
            0 <= k <= before.len() && after.len() == before.len() + 1 && after.remove(k) == before
                && after[k].entry == (WordlistEntry { id: Some(id), ..entry }) && after[k].links@.len() == 0;
        assert forall|j: int| 0 <= j < before.len() implies #[trigger] before[j] == after[if j < k {
            j
        } else {
            j + 1
        }] by {
            assert(after.remove(k)[j] == before[j]);
        }
        assert forall|q: Seq<char>| q != p implies (#[trigger] has_path(after, q) == has_path(before, q)) && (
        has_path(before, q) ==> after[path_pos(after, q)] == before[path_pos(before, q)]) by {
            if has_path(after, q) {
                let j = choose|j: int| 0 <= j < after.len() && after[j].entry.path@ == q;
                assert(j != k);
                let jb = if j < k {
                    j
                } else {
                    j - 1
                };
                assert(before[jb] == after[j]);
            }
            if has_path(before, q) {
                let j = path_pos(before, q);
                let ja = if j < k {
                    j
                } else {
                    j + 1
                };
                assert(after[ja] == before[j]);
                lemma_path_pos(after, known_after, ja);
            }
        }
    }
}

/// Changing the tags of the wordlist at `i` touches no other path.
pub proof fn lemma_relinked_elsewhere(
    before: Seq<IndexedWordlist>,
    after: Seq<IndexedWordlist>,
    known_before: Seq<Seq<char>>,
    known_after: Seq<Seq<char>>,
    i: int,
    links: Seq<(Seq<char>, bool)>,
)
    requires
        index_wf(before, known_before),
        index_wf(after, known_after),
        relinked(before, after, i, links),
    ensures
        same_elsewhere(before, after, before[i].entry.path@),
{
    let p = before[i].entry.path@;
    assert forall|q: Seq<char>| q != p implies (#[trigger] has_path(after, q) == has_path(before, q)) && (has_path(
        before,
        q,
    ) ==> after[path_pos(after, q)] == before[path_pos(before, q)]) by {
        if has_path(after, q) {
            let j = choose|j: int| 0 <= j < after.len() && after[j].entry.path@ == q;
            assert(before[j].entry == after[j].entry);
        }
        if has_path(before, q) {
            let j = path_pos(before, q);
            assert(j != i);
            assert(after[j] == before[j]);
            lemma_path_pos(after, known_after, j);
        }
    }
}

/// After an upsert that returned `id`, the wordlist with that id is the stored entry, and its
/// tags are those the path had before (none for a new path).
pub proof fn lemma_upserted_position(
    before: Seq<IndexedWordlist>,
    after: Seq<IndexedWordlist>,
    known: Seq<Seq<char>>,
    entry: WordlistEntry,
    id: i64,
)
    requires
        index_wf(after, known),
        has_path(before, entry.path@) ==> {
            let i = path_pos(before, entry.path@);
            &&& before[i].entry.id == Some(id)
            &&& after == before.update(
                i,
                (IndexedWordlist { entry: WordlistEntry { id: before[i].entry.id, ..entry }, links: before[i].links }),
            )
        },
        !has_path(before, entry.path@) ==> exists|k: int|
            0 <= k <= before.len() && after.len() == before.len() + 1 && after.remove(k) == before
                && after[k].entry == (WordlistEntry { id: Some(id), ..entry }) && after[k].links@.len() == 0,
    ensures
        has_id(after, id),
        after[id_pos(after, id)].entry == (WordlistEntry { id: Some(id), ..entry }),
        link_views(after[id_pos(after, id)].links@) == (if has_path(before, entry.path@) {
            link_views(before[path_pos(before, entry.path@)].links@)
        } else {
            Seq::empty()
        }),
{
    if has_path(before, entry.path@) {
        let i = path_pos(before, entry.path@);
        lemma_id_pos(after, known, i, id);
    } else {
        let k = choose|k: int|
            0 <= k <= before.len() && after.len() == before.len() + 1 && after.remove(k) == before
                && after[k].entry == (WordlistEntry { id: Some(id), ..entry }) && after[k].links@.len() == 0;
        lemma_id_pos(after, known, k, id);
        assert(link_views(after[k].links@) =~= Seq::<(Seq<char>, bool)>::empty());
    }
}

/// Changing the tags of one wordlist leaves it where it was.
pub proof fn lemma_relinked_id_pos(
    before: Seq<IndexedWordlist>,
    after: Seq<IndexedWordlist>,
    known: Seq<Seq<char>>,
    id: i64,
    links: Seq<(Seq<char>, bool)>,
)
    requires
        index_wf(after, known),
        has_id(before, id),
        relinked(before, after, id_pos(before, id), links),
    ensures
        has_id(after, id),
        id_pos(after, id) == id_pos(before, id),
{
    let p = id_pos(before, id);
    assert(after[p].entry.id == Some(id));
    lemma_id_pos(after, known, p, id);
}

/// What is stored can be read back: after an entry is stored under `id`, the wordlist at its
/// path is that entry with that id.
pub proof fn law_read_after_upsert(
    before: Seq<IndexedWordlist>,
    after: Seq<IndexedWordlist>,
    known: Seq<Seq<char>>,
    entry: WordlistEntry,
    id: i64,
)
    requires
        index_wf(after, known),
        upserted(before, after, entry, id),
    ensures
        has_path(after, entry.path@),
        after[path_pos(after, entry.path@)].entry == (WordlistEntry { id: Some(id), ..entry }),
{
    if has_path(before, entry.path@) {
        let i = path_pos(before, entry.path@);
        assert(after[i].entry.path@ == entry.path@);
        lemma_path_pos(after, known, i);
    } else {
        let k = choose|k: int|
            0 <= k <= before.len() && after.len() == before.len() + 1 && after.remove(k) == before
                && after[k].entry == (WordlistEntry { id: Some(id), ..entry }) && after[k].links@.len() == 0;
        lemma_path_pos(after, known, k);
    }
}

/// The newest schema version of the stored index.
pub const SCHEMA_VERSION: u32 = 4;

/// The schema versions, oldest first: the wordlists table; their SHA-256 column; the tags
/// tables; the manual flag of attached tags.
pub open spec fn schema_versions() -> Seq<u32> {
    seq![1u32, 2u32, 3u32, 4u32]
}

/// The migrations that a store at schema version `current` still needs, oldest first.
pub open spec fn pending(current: i64) -> Seq<u32> {
    schema_versions().filter(|v: u32| v > current)
}

/// Migrating brings a store to the newest version, and a store there needs nothing more:
/// the last pending migration is `SCHEMA_VERSION`, and after it none is pending.
pub proof fn law_migrations_reach_latest(current: i64)
    ensures
        pending(current).len() > 0 ==> pending(current).last() == SCHEMA_VERSION,
        pending(current).len() > 0 ==> pending(pending(current).last() as i64).len() == 0,
        current >= SCHEMA_VERSION ==> pending(current).len() == 0,
{
    reveal_with_fuel(Seq::filter, 5);
    let pred = |v: u32| v > current;
    let latest = |v: u32| v > SCHEMA_VERSION as i64;
    assert(schema_versions().drop_last() =~= seq![1u32, 2u32, 3u32]);
    assert(seq![1u32, 2u32, 3u32].drop_last() =~= seq![1u32, 2u32]);
    assert(seq![1u32, 2u32].drop_last() =~= seq![1u32]);
    assert(seq![1u32].drop_last() =~= Seq::<u32>::empty());
    assert(schema_versions().filter(latest) =~= Seq::<u32>::empty());
}

/// Migrations complete the record of versions: a store that has recorded the versions up to
/// `current` and then records each pending one has recorded every schema version once, in
/// order; run again at the newest version, nothing is pending and nothing is recorded.
pub proof fn law_migrations_complete(current: i64)
    requires
        0 <= current <= SCHEMA_VERSION,
    ensures
        schema_versions().take(current as int) + pending(current) == schema_versions(),
        pending((schema_versions().take(current as int) + pending(current)).last() as i64).len() == 0,
{
    reveal_with_fuel(Seq::filter, 5);
    assert(schema_versions().drop_last() =~= seq![1u32, 2u32, 3u32]);
    assert(seq![1u32, 2u32, 3u32].drop_last() =~= seq![1u32, 2u32]);
    assert(seq![1u32, 2u32].drop_last() =~= seq![1u32]);
    assert(seq![1u32].drop_last() =~= Seq::<u32>::empty());
    if current == 0 {
        assert(pending(current) =~= schema_versions());
    } else if current == 1 {
        assert(pending(current) =~= seq![2u32, 3u32, 4u32]);
    } else if current == 2 {
        assert(pending(current) =~= seq![3u32, 4u32]);
    } else if current == 3 {
        assert(pending(current) =~= seq![4u32]);
    } else {
        assert(pending(current) =~= Seq::<u32>::empty());
    }
    assert(schema_versions().take(current as int) + pending(current) =~= schema_versions());
    law_migrations_reach_latest(4);
    assert(schema_versions().filter(|v: u32| v > 4i64) =~= Seq::<u32>::empty());
}

/// The migrations that a store at schema version `current` still needs, oldest first.
pub fn pending_migrations(current: i64) -> (r: Vec<u32>)
    ensures
        r@ == pending(current),
{
    let ghost pred = |v: u32| v > current;
    let all: Vec<u32> = vec![1u32, 2u32, 3u32, 4u32];
    assert(all@ =~= schema_versions());
    let mut out: Vec<u32> = Vec::new();
    let mut i: usize = 0;
    while i < all.len()
        invariant
            i <= all@.len(),
            all@ == schema_versions(),
            pred == (|v: u32| v > current),
            out@ == all@.take(i as int).filter(pred),
        decreases all@.len() - i,
    {
        proof {
            lemma_filter_push(all@.take(i as int), all@[i as int], pred);
            assert(all@.take(i + 1) =~= all@.take(i as int).push(all@[i as int]));
        }
        if (all[i] as i64) > current {
            out.push(all[i]);
        }
        i = i + 1;
    }
    assert(all@.take(i as int) =~= all@);
    out
}

} // verus!
