//! Collection statistics: counts by repository, category and extension, the largest files,
//! and the overview.
use vstd::prelude::*;
use vstd::string::StringExecFns;
use crate::db::{get_all, entries_of, Index, WordlistEntry};
use crate::error::WlError;
use crate::output::{
    cell_text, column_width, content_width, line_text, lines_text, opt_or, opt_or_exec, push_line, push_line_text,
    rows_text, rows_views, size_text, strings, OutputMode,
};
use crate::sort::{key_before, lemma_multiset_map, sort_by_key, sorted_by_key, SortKey};
use crate::text::{
    int_dec, pad_right, push_char, push_repeat, push_str, repeat_char, seq_lt, str_lt, views, i64_to_dec,
};

pub use crate::output::format_size;

verus! {

broadcast use vstd::seq_lib::group_to_multiset_ensures;

/// A count of wordlists under one label.
#[derive(Clone, PartialEq, Eq, Debug)]
pub struct Stat {
    pub label: String,
    pub count: u64,
}

impl SortKey for Stat {
    open spec fn sort_key(&self) -> (int, Seq<char>) {
        (self.count as int, self.label@)
    }

    fn comes_before(&self, other: &Self) -> (r: bool) {
        self.count > other.count || (self.count == other.count && str_lt(
            self.label.as_str(),
            other.label.as_str(),
        ))
    }
}

/// An optional string as an optional character sequence.
pub open spec fn opt_view(o: Option<String>) -> Option<Seq<char>> {
    match o {
        Some(s) => Some(s@),
        None => None,
    }
}

/// How many times `k` occurs.
pub open spec fn count_of(keys: Seq<Option<Seq<char>>>, k: Option<Seq<char>>) -> nat
    decreases keys.len(),
{
    if keys.len() == 0 {
        0
    } else {
        count_of(keys.drop_last(), k) + if keys.last() == k {
            1nat
        } else {
            0nat
        }
    }
}

/// How many different values occur.
pub open spec fn distinct_count(keys: Seq<Option<Seq<char>>>) -> nat
    decreases keys.len(),
{
    if keys.len() == 0 {
        0
    } else {
        distinct_count(keys.drop_last()) + if keys.drop_last().contains(keys.last()) {
            0nat
        } else {
            1nat
        }
    }
}

/// The label of a group: its key, or `missing` for wordlists without one.
pub open spec fn label_of(k: Option<Seq<char>>, missing: Seq<char>) -> Seq<char> {
    match k {
        Some(s) => s,
        None => missing,
    }
}

/// Whether a row counts one of the keys, under that key's label.
pub open spec fn counts_some_key(row: Stat, keys: Seq<Option<String>>, missing: Seq<char>) -> bool {
    exists|j: int|
        0 <= j < keys.len() && row.label@ == label_of(opt_view(keys[j]), missing) && row.count == count_of(
            keys.map_values(|o: Option<String>| opt_view(o)),
            opt_view(keys[j]),
        )
}

/// Whether some row counts the key at position `j`.
pub open spec fn key_counted(rows: Seq<Stat>, keys: Seq<Option<String>>, missing: Seq<char>, j: int) -> bool {
    exists|a: int|
        0 <= a < rows.len() && rows[a].label@ == label_of(opt_view(keys[j]), missing) && rows[a].count == count_of(
            keys.map_values(|o: Option<String>| opt_view(o)),
            opt_view(keys[j]),
        )
}

/// Whether two optional strings are equal.
fn opt_eq(a: &Option<String>, b: &Option<String>) -> (r: bool)
    ensures
        r == (opt_view(*a) == opt_view(*b)),
{
    match (a, b) {
        (Some(x), Some(y)) => *x == *y,
        (None, None) => true,
        _ => false,
    }
}

/// A counted group.
struct Group {
    key: Option<String>,
    count: usize,
}

proof fn lemma_count_of_pos(keys: Seq<Option<Seq<char>>>, j: int)
    requires
        0 <= j < keys.len(),
    ensures
        count_of(keys, keys[j]) >= 1,
    decreases keys.len(),
{
    if j < keys.len() - 1 {
        lemma_count_of_pos(keys.drop_last(), j);
    }
}

proof fn lemma_count_of_zero(keys: Seq<Option<Seq<char>>>, k: Option<Seq<char>>)
    requires
        !keys.contains(k),
    ensures
        count_of(keys, k) == 0,
    decreases keys.len(),
{
    if keys.len() > 0 {
        assert(!keys.drop_last().contains(k)) by {
            if keys.drop_last().contains(k) {
                let j = choose|j: int| 0 <= j < keys.drop_last().len() && keys.drop_last()[j] == k;
                assert(keys[j] == k);
            }
        }
        lemma_count_of_zero(keys.drop_last(), k);
    }
}

/// Counts the wordlists of each key: one group per different key, with how many have it.
fn count_groups(keys: &Vec<Option<String>>) -> (r: Vec<Group>)
    ensures
        r@.len() == distinct_count(keys@.map_values(|o: Option<String>| opt_view(o))),
        forall|a: int, b: int| 0 <= a < b < r@.len() ==> opt_view(r@[a].key) != opt_view(r@[b].key),
        forall|a: int|
            0 <= a < r@.len() ==> (#[trigger] r@[a]).count as nat == count_of(
                keys@.map_values(|o: Option<String>| opt_view(o)),
                opt_view(r@[a].key),
            ) && keys@.map_values(|o: Option<String>| opt_view(o)).contains(opt_view(r@[a].key)),
        forall|j: int|
            0 <= j < keys@.len() ==> exists|a: int| 0 <= a < r@.len() && opt_view(r@[a].key) == opt_view(#[trigger] keys@[j]),
{
    let ghost kv = keys@.map_values(|o: Option<String>| opt_view(o));
    let mut groups: Vec<Group> = Vec::new();
    let mut i: usize = 0;
    while i < keys.len()
        invariant
            i <= keys@.len(),
            kv == keys@.map_values(|o: Option<String>| opt_view(o)),
            groups@.len() == distinct_count(kv.take(i as int)),
            forall|a: int, b: int| 0 <= a < b < groups@.len() ==> opt_view(groups@[a].key) != opt_view(groups@[b].key),
            forall|a: int|
                0 <= a < groups@.len() ==> (#[trigger] groups@[a]).count as nat == count_of(
                    kv.take(i as int),
                    opt_view(groups@[a].key),
                ) && kv.take(i as int).contains(opt_view(groups@[a].key)),
            forall|j: int|
                0 <= j < i ==> exists|a: int| 0 <= a < groups@.len() && opt_view(groups@[a].key) == #[trigger] kv[j],
            groups@.len() <= i,
        decreases keys@.len() - i,
    {
        let ghost prefix = kv.take(i as int);
        let ghost next = kv.take(i + 1);
        assert(next.drop_last() =~= prefix);
        assert(next.last() == kv[i as int]);
        assert(kv[i as int] == opt_view(keys@[i as int]));
        let mut g: usize = 0;
        while g < groups.len()
            invariant
                g <= groups@.len(),
                i < keys@.len(),
                forall|a: int| 0 <= a < g ==> opt_view(groups@[a].key) != opt_view(keys@[i as int]),
            ensures
                g <= groups@.len(),
                g < groups@.len() ==> opt_view(groups@[g as int].key) == opt_view(keys@[i as int]),
                forall|a: int| 0 <= a < g ==> opt_view(groups@[a].key) != opt_view(keys@[i as int]),
            decreases groups@.len() - g,
        {
            if opt_eq(&groups[g].key, &keys[i]) {
                break;
            }
            g = g + 1;
        }
        let ghost old_groups = groups@;
        if g < groups.len() {
            proof {
                lemma_count_of_le(prefix, opt_view(groups@[g as int].key));
            }
            let grp = groups.remove(g);
            groups.insert(g, Group { key: grp.key, count: grp.count + 1 });
            assert(prefix.contains(kv[i as int]));
            assert forall|a: int|
                0 <= a < groups@.len() implies (#[trigger] groups@[a]).count as nat == count_of(
                    next,
                    opt_view(groups@[a].key),
                ) && next.contains(opt_view(groups@[a].key)) by {
                if a != g {
                    assert(groups@[a] == old_groups[a]);
                }
                let w = choose|w: int| 0 <= w < prefix.len() && prefix[w] == opt_view(groups@[a].key);
                assert(next[w] == prefix[w]);
            }
        } else {
            assert(!prefix.contains(kv[i as int])) by {
                if prefix.contains(kv[i as int]) {
                    let w = choose|w: int| 0 <= w < prefix.len() && prefix[w] == kv[i as int];
                    assert(prefix[w] == kv[w]);
                    let a = choose|a: int| 0 <= a < old_groups.len() && opt_view(old_groups[a].key) == #[trigger] kv[w];
                }
            }
            proof {
                lemma_count_of_zero(prefix, kv[i as int]);
            }
            let key = match &keys[i] {
                Some(x) => Some(x.clone()),
                None => None,
            };
            groups.push(Group { key, count: 1 });
            assert forall|a: int|
                0 <= a < groups@.len() implies (#[trigger] groups@[a]).count as nat == count_of(
                    next,
                    opt_view(groups@[a].key),
                ) && next.contains(opt_view(groups@[a].key)) by {
                if a < groups@.len() - 1 {
                    assert(groups@[a] == old_groups[a]);
                    let w = choose|w: int| 0 <= w < prefix.len() && prefix[w] == opt_view(groups@[a].key);
                    assert(next[w] == prefix[w]);
                } else {
                    assert(next[i as int] == kv[i as int]);
                }
            }
        }
        assert forall|j: int| 0 <= j < i + 1 implies exists|a: int| 0 <= a < groups@.len() && opt_view(groups@[a].key) == #[trigger] kv[j] by {
            if j == i {
                if g < old_groups.len() {
                    assert(opt_view(groups@[g as int].key) == kv[j]);
                } else {
                    assert(opt_view(groups@[groups@.len() - 1].key) == kv[j]);
                }
            } else {
                let a = choose|a: int| 0 <= a < old_groups.len() && opt_view(old_groups[a].key) == #[trigger] kv[j];
                if g < old_groups.len() {
                    assert(opt_view(groups@[a].key) == opt_view(old_groups[a].key));
                } else {
                    assert(groups@[a] == old_groups[a]);
                }
            }
        }
        i = i + 1;
    }
    assert(kv.take(i as int) =~= kv);
    assert forall|j: int| 0 <= j < keys@.len() implies exists|a: int| 0 <= a < groups@.len() && opt_view(groups@[a].key) == opt_view(#[trigger] keys@[j]) by {
        assert(kv[j] == opt_view(keys@[j]));
    }
    groups
}

/// Counts wordlists by an optional key: one row per different key (wordlists without one
/// form their own row, labelled `missing`), with the number of wordlists that have it,
/// ordered by count (largest first) then label.
pub fn count_by(keys: &Vec<Option<String>>, missing: &str) -> (r: Vec<Stat>)
    ensures
        sorted_by_key(r@),
        r@.len() == distinct_count(keys@.map_values(|o: Option<String>| opt_view(o))),
        forall|a: int| 0 <= a < r@.len() ==> counts_some_key(#[trigger] r@[a], keys@, missing@),
        forall|j: int| 0 <= j < keys@.len() ==> #[trigger] key_counted(r@, keys@, missing@, j),
{
    let ghost kv = keys@.map_values(|o: Option<String>| opt_view(o));
    let groups = count_groups(keys);
    let mut stats: Vec<Stat> = Vec::new();
    let mut a: usize = 0;
    while a < groups.len()
        invariant
            a <= groups@.len(),
            kv == keys@.map_values(|o: Option<String>| opt_view(o)),
            stats@.len() == a,
            forall|x: int|
                0 <= x < groups@.len() ==> (#[trigger] groups@[x]).count as nat == count_of(kv, opt_view(groups@[x].key))
                    && kv.contains(opt_view(groups@[x].key)),
            forall|x: int|
                0 <= x < a ==> (#[trigger] stats@[x]).label@ == label_of(opt_view(groups@[x].key), missing@)
                    && stats@[x].count == groups@[x].count,
        decreases groups@.len() - a,
    {
        let grp = &groups[a];
        proof {
            lemma_count_of_le(kv, opt_view(grp.key));
        }
        let label = match &grp.key {
            Some(x) => x.clone(),
            None => missing.to_owned(),
        };
        stats.push(Stat { label, count: grp.count as u64 });
        a = a + 1;
    }
    let ghost unsorted = stats@;
    let sorted = sort_by_key(stats);
    proof {
        lemma_count_by_sorted(keys@, kv, missing@, groups@, unsorted, sorted@);
    }
    sorted
}

proof fn lemma_count_by_sorted(
    keys: Seq<Option<String>>,
    kv: Seq<Option<Seq<char>>>,
    missing: Seq<char>,
    groups: Seq<Group>,
    unsorted: Seq<Stat>,
    sorted: Seq<Stat>,
)
    requires
        kv == keys.map_values(|o: Option<String>| opt_view(o)),
        sorted.to_multiset() == unsorted.to_multiset(),
        unsorted.len() == groups.len(),
        forall|x: int|
            0 <= x < groups.len() ==> (#[trigger] groups[x]).count as nat == count_of(kv, opt_view(groups[x].key))
                && kv.contains(opt_view(groups[x].key)),
        forall|x: int|
            0 <= x < groups.len() ==> (#[trigger] unsorted[x]).label@ == label_of(opt_view(groups[x].key), missing)
                && unsorted[x].count == groups[x].count,
        forall|j: int|
            0 <= j < keys.len() ==> exists|a: int| 0 <= a < groups.len() && opt_view(groups[a].key) == opt_view(#[trigger] keys[j]),
    ensures
        sorted.len() == unsorted.len(),
        forall|a: int| 0 <= a < sorted.len() ==> counts_some_key(#[trigger] sorted[a], keys, missing),
        forall|j: int| 0 <= j < keys.len() ==> #[trigger] key_counted(sorted, keys, missing, j),
{
    assert(sorted.to_multiset().len() == sorted.len());
    assert(unsorted.to_multiset().len() == unsorted.len());
    assert forall|x: int| 0 <= x < sorted.len() implies counts_some_key(#[trigger] sorted[x], keys, missing) by {
        assert(sorted.to_multiset().count(sorted[x]) > 0);
        assert(unsorted.contains(sorted[x]));
        let y = choose|y: int| 0 <= y < unsorted.len() && unsorted[y] == sorted[x];
        assert(unsorted[y] == sorted[x]);
        assert(kv.contains(opt_view(groups[y].key)));
        let j = choose|j: int| 0 <= j < kv.len() && kv[j] == opt_view(groups[y].key);
        assert(kv[j] == opt_view(keys[j]));
        assert(sorted[x].label@ == label_of(opt_view(keys[j]), missing));
        assert(sorted[x].count == count_of(kv, opt_view(keys[j])));
    }
    assert forall|j: int| 0 <= j < keys.len() implies #[trigger] key_counted(sorted, keys, missing, j) by {
        let y = choose|y: int| 0 <= y < groups.len() && opt_view(groups[y].key) == opt_view(keys[j]);
        assert(unsorted.to_multiset().count(unsorted[y]) > 0);
        assert(sorted.contains(unsorted[y]));
        let x = choose|x: int| 0 <= x < sorted.len() && sorted[x] == unsorted[y];
        assert(sorted[x].label@ == label_of(opt_view(keys[j]), missing));
        assert(sorted[x].count == count_of(kv, opt_view(keys[j])));
    }
}

proof fn lemma_count_of_le(keys: Seq<Option<Seq<char>>>, k: Option<Seq<char>>)
    ensures
        count_of(keys, k) <= keys.len(),
    decreases keys.len(),
{
    if keys.len() > 0 {
        lemma_count_of_le(keys.drop_last(), k);
    }
}


/// The column that wordlists are counted by.
#[derive(Clone, Copy, PartialEq, Eq, Debug)]
pub enum StatField {
    Repository,
    Category,
    Extension,
}

/// The value of that column for a wordlist.
pub open spec fn field_of(e: WordlistEntry, f: StatField) -> Option<String> {
    match f {
        StatField::Repository => e.source_repo,
        StatField::Category => e.category,
        StatField::Extension => e.extension,
    }
}

/// The label of wordlists without a value: "unknown" repository, "." category, "none" extension.
pub open spec fn missing_label(f: StatField) -> Seq<char> {
    match f {
        StatField::Repository => "unknown"@,
        StatField::Category => "."@,
        StatField::Extension => "none"@,
    }
}

/// The values of that column for a sequence of wordlists.
pub open spec fn field_values(entries: Seq<WordlistEntry>, f: StatField) -> Seq<Option<String>> {
    entries.map_values(|e: WordlistEntry| field_of(e, f))
}

/// Wordlists counted by one column: one row per different value (wordlists without one form
/// their own row), with the number of wordlists, largest count first, then by label.
pub fn query_counts(index: &Index, field: StatField) -> (r: Vec<Stat>)
    ensures
        is_count_table(r@, field_values(entries_of(index.rows()), field), missing_label(field)),
{
    let entries = get_all(index);
    let mut keys: Vec<Option<String>> = Vec::new();
    let mut i: usize = 0;
    while i < entries.len()
        invariant
            i <= entries@.len(),
            keys@ == field_values(entries@.take(i as int), field),
        decreases entries@.len() - i,
    {
        let e = &entries[i];
        let v = match field {
            StatField::Repository => crate::db::copy_opt(&e.source_repo),
            StatField::Category => crate::db::copy_opt(&e.category),
            StatField::Extension => crate::db::copy_opt(&e.extension),
        };
        keys.push(v);
        i = i + 1;
        assert(keys@ =~= field_values(entries@.take(i as int), field));
    }
    assert(entries@.take(i as int) =~= entries@);
    let label = match field {
        StatField::Repository => "unknown",
        StatField::Category => ".",
        StatField::Extension => "none",
    };
    let r = count_by(&keys, label);
    assert(is_count_table(r@, keys@, label@));
    r
}


/// One of the largest wordlists.
#[derive(Clone, PartialEq, Eq, Debug)]
pub struct LargestStat {
    pub filename: String,
    pub size_bytes: i64,
    pub repo: String,
    pub path: String,
}

impl SortKey for LargestStat {
    open spec fn sort_key(&self) -> (int, Seq<char>) {
        (self.size_bytes as int, self.path@)
    }

    fn comes_before(&self, other: &Self) -> (r: bool) {
        self.size_bytes > other.size_bytes || (self.size_bytes == other.size_bytes && str_lt(
            self.path.as_str(),
            other.path.as_str(),
        ))
    }
}

/// How many of the largest wordlists are listed.
pub const LARGEST_LIMIT: usize = 20;

/// The view of a largest-file row.
pub open spec fn largest_view(l: LargestStat) -> (i64, Seq<char>, Seq<char>, Seq<char>) {
    (l.size_bytes, l.filename@, l.repo@, l.path@)
}

/// The views of largest-file rows.
pub open spec fn largest_views(s: Seq<LargestStat>) -> Seq<(i64, Seq<char>, Seq<char>, Seq<char>)> {
    s.map_values(|l: LargestStat| largest_view(l))
}

/// The row a wordlist gives.
pub open spec fn entry_largest_view(e: WordlistEntry) -> (i64, Seq<char>, Seq<char>, Seq<char>) {
    (e.size_bytes, e.filename@, opt_or(e.source_repo, "unknown"@), e.path@)
}

/// The twenty largest wordlists, by size (largest first) then path.
pub fn query_largest(index: &Index) -> (r: Vec<LargestStat>)
    ensures
        sorted_by_key(r@),
        r@.len() == (if index.rows().len() < 20 {
            index.rows().len() as int
        } else {
            20
        }),
        exists|all: Seq<LargestStat>|
            #![trigger largest_views(all)]
            sorted_by_key(all) && largest_views(all).to_multiset() == entries_of(index.rows()).map_values(
                |e: WordlistEntry| entry_largest_view(e),
            ).to_multiset() && r@ == all.take(r@.len() as int),
{
    let entries = get_all(index);
    let mut rows: Vec<LargestStat> = Vec::new();
    let mut i: usize = 0;
    while i < entries.len()
        invariant
            i <= entries@.len(),
            largest_views(rows@) == entries@.take(i as int).map_values(|e: WordlistEntry| entry_largest_view(e)),
        decreases entries@.len() - i,
    {
        let e = &entries[i];
        let ghost before = rows@;
        rows.push(
            LargestStat {
                filename: e.filename.clone(),
                size_bytes: e.size_bytes,
                repo: opt_or_exec(&e.source_repo, "unknown"),
                path: e.path.clone(),
            },
        );
        i = i + 1;
        assert(largest_views(rows@) =~= largest_views(before).push(entry_largest_view(entries@[i - 1])));
        assert(entries@.take(i as int).map_values(|e: WordlistEntry| entry_largest_view(e)) =~= entries@.take(
            i - 1,
        ).map_values(|e: WordlistEntry| entry_largest_view(e)).push(entry_largest_view(entries@[i - 1])));
    }
    assert(entries@.take(i as int) =~= entries@);
    let ghost unsorted = rows@;
    let mut sorted = sort_by_key(rows);
    proof {
        lemma_multiset_map(sorted@, unsorted, |l: LargestStat| largest_view(l));
        assert(sorted@.to_multiset().len() == sorted@.len());
        assert(unsorted.to_multiset().len() == unsorted.len());
    }
    let ghost all = sorted@;
    if sorted.len() > LARGEST_LIMIT {
        sorted.truncate(LARGEST_LIMIT);
    }
    proof {
        assert(sorted@ =~= all.take(sorted@.len() as int));
        assert forall|a: int, b: int| 0 <= a < b < sorted@.len() implies !key_before(
            #[trigger] sorted@[b].sort_key(),
            #[trigger] sorted@[a].sort_key(),
        ) by {
            assert(sorted@[a] == all[a] && sorted@[b] == all[b]);
        }
        assert(largest_views(all).to_multiset() == largest_views(unsorted).to_multiset());
    }
    sorted
}

/// Whether `r` is a count table of `keys`: sorted, one row per different key, each row the
/// count of a key under its label, and every key counted.
pub open spec fn is_count_table(r: Seq<Stat>, keys: Seq<Option<String>>, missing: Seq<char>) -> bool {
    &&& sorted_by_key(r)
    &&& r.len() == distinct_count(keys.map_values(|o: Option<String>| opt_view(o)))
    &&& forall|a: int| 0 <= a < r.len() ==> counts_some_key(#[trigger] r[a], keys, missing)
    &&& forall|j: int| 0 <= j < keys.len() ==> #[trigger] key_counted(r, keys, missing, j)
}

/// The total size of the wordlists.
pub open spec fn size_sum(entries: Seq<WordlistEntry>) -> int
    decreases entries.len(),
{
    if entries.len() == 0 {
        0
    } else {
        size_sum(entries.drop_last()) + entries.last().size_bytes
    }
}

/// How many wordlists are compressed (or, with `want` false, not compressed).
pub open spec fn compressed_count(entries: Seq<WordlistEntry>, want: bool) -> nat
    decreases entries.len(),
{
    if entries.len() == 0 {
        0
    } else {
        compressed_count(entries.drop_last(), want) + if entries.last().compressed == want {
            1nat
        } else {
            0nat
        }
    }
}

/// The repositories that are named (wordlists without one are left out).
pub open spec fn named_repos(entries: Seq<WordlistEntry>) -> Seq<Option<String>>
    decreases entries.len(),
{
    if entries.len() == 0 {
        Seq::empty()
    } else {
        let before = named_repos(entries.drop_last());
        if entries.last().source_repo is Some {
            before.push(entries.last().source_repo)
        } else {
            before
        }
    }
}

/// The overview of the collection.
#[derive(Clone, PartialEq, Eq, Debug)]
pub struct GeneralStats {
    pub repositories_count: u64,
    pub wordlists_count: u64,
    pub total_disk_usage: i64,
    pub compressed_count: u64,
    pub text_count: u64,
    pub repositories: Vec<Stat>,
    pub categories: Vec<Stat>,
}

/// The overview of these wordlists: how many there are, their total size, how many are
/// compressed and how many are text, how many different named repositories they come from,
/// and their counts by repository and by category.
pub open spec fn overview_of(entries: Seq<WordlistEntry>, g: GeneralStats) -> bool {
    &&& g.wordlists_count == entries.len()
    &&& g.total_disk_usage == size_sum(entries)
    &&& g.compressed_count == compressed_count(entries, true)
    &&& g.text_count == compressed_count(entries, false)
    &&& g.repositories_count == distinct_count(named_repos(entries).map_values(|o: Option<String>| opt_view(o)))
    &&& is_count_table(g.repositories@, field_values(entries, StatField::Repository), "unknown"@)
    &&& is_count_table(g.categories@, field_values(entries, StatField::Category), "."@)
}

/// The overview: how many different named repositories, wordlists, bytes in all, compressed
/// and text wordlists, and the counts by repository and by category. A total beyond `i64`
/// is an error.
pub fn general_stats(index: &Index) -> (r: Result<GeneralStats, WlError>)
    ensures
        r is Err <==> !(i64::MIN <= size_sum(entries_of(index.rows())) <= i64::MAX),
        r matches Err(e) ==> e matches WlError::Db(m) && m@ == "integer overflow"@,
        r matches Ok(g) ==> overview_of(entries_of(index.rows()), g),
{
    let entries = get_all(index);
    let mut total: i128 = 0;
    let mut compressed: u64 = 0;
    let mut text: u64 = 0;
    let mut named: Vec<Option<String>> = Vec::new();
    let mut i: usize = 0;
    while i < entries.len()
        invariant
            i <= entries@.len(),
            total == size_sum(entries@.take(i as int)),
            -0x8000_0000_0000_0000 * i <= total <= 0x7fff_ffff_ffff_ffff * i,
            compressed == compressed_count(entries@.take(i as int), true),
            text == compressed_count(entries@.take(i as int), false),
            compressed + text == i,
            named@ == named_repos(entries@.take(i as int)),
        decreases entries@.len() - i,
    {
        let e = &entries[i];
        assert(entries@.take(i + 1).drop_last() =~= entries@.take(i as int));
        assert(entries@.take(i + 1).last() == entries@[i as int]);
        assert(i < 0x1_0000_0000_0000_0000);
        total = total + e.size_bytes as i128;
        if e.compressed {
            compressed = compressed + 1;
        } else {
            text = text + 1;
        }
        if e.source_repo.is_some() {
            named.push(crate::db::copy_opt(&e.source_repo));
        }
        i = i + 1;
    }
    assert(entries@.take(i as int) =~= entries@);
    if total < i64::MIN as i128 || total > i64::MAX as i128 {
        return Err(WlError::Db(String::from_str("integer overflow")));
    }
    let repos_distinct = count_groups(&named);
    let repositories = query_counts(index, StatField::Repository);
    let categories = query_counts(index, StatField::Category);
    assert(repos_distinct@.len() == distinct_count(named_repos(entries_of(index.rows())).map_values(|o: Option<String>| opt_view(o))));
    assert(entries@.len() == index.rows().len());
    Ok(
        GeneralStats {
            repositories_count: repos_distinct.len() as u64,
            wordlists_count: entries.len() as u64,
            total_disk_usage: total as i64,
            compressed_count: compressed,
            text_count: text,
            repositories,
            categories,
        },
    )
}


/// The widths of a plain table: each column as wide as its widest cell or title, in bytes.
pub open spec fn plain_widths(headers: Seq<Seq<char>>, rows: Seq<Seq<Seq<char>>>) -> Seq<nat> {
    Seq::new(headers.len(), |i: int| content_width(headers[i], rows, i, usize::MAX as nat))
}

/// The dashed rule under a plain table's titles.
pub open spec fn dash_rule(widths: Seq<nat>, k: int) -> Seq<char>
    decreases k,
{
    if k <= 0 {
        Seq::empty()
    } else {
        dash_rule(widths, k - 1) + repeat_char('-', widths[k - 1]) + if k - 1 == widths.len() - 1 {
            Seq::empty()
        } else {
            "  "@
        }
    }
}

/// A plain table: titles, a dashed rule, and the rows, columns separated by two spaces.
pub open spec fn plain_table_text(headers: Seq<Seq<char>>, rows: Seq<Seq<Seq<char>>>) -> Seq<char> {
    if headers.len() == 0 {
        Seq::empty()
    } else {
        let w = plain_widths(headers, rows);
        let n = headers.len();
        line_text(headers, w, n, false) + seq!['\n'] + dash_rule(w, n as int) + seq!['\n'] + rows_text(
            rows,
            w,
            n,
            false,
        )
    }
}

/// Lays out a plain table.
pub fn format_plain_table(headers: &Vec<String>, rows: &Vec<Vec<String>>) -> (r: String)
    requires
        forall|k: int| 0 <= k < rows@.len() ==> (#[trigger] rows@[k])@.len() <= headers@.len(),
    ensures
        r@ == plain_table_text(views(headers@), rows_views(rows@)),
{
    let n = headers.len();
    if n == 0 {
        return String::new();
    }
    let ghost hv = views(headers@);
    let ghost rv = rows_views(rows@);
    let ghost wv = plain_widths(hv, rv);
    let mut widths: Vec<usize> = Vec::new();
    let mut i: usize = 0;
    while i < n
        invariant
            i <= n,
            n == headers@.len(),
            hv == views(headers@),
            rv == rows_views(rows@),
            wv == plain_widths(hv, rv),
            widths@.len() == i,
            widths@.map_values(|w: usize| w as nat) == wv.take(i as int),
        decreases n - i,
    {
        assert(hv[i as int] == headers@[i as int]@);
        let w = column_width(&headers[i], rows, i, usize::MAX);
        let ghost before = widths@;
        widths.push(w);
        i = i + 1;
        assert forall|j: int| 0 <= j < i implies widths@.map_values(|w: usize| w as nat)[j] == wv.take(i as int)[j] by {
            if j < i - 1 {
                assert(before.map_values(|w: usize| w as nat)[j] == wv.take(i - 1)[j]);
                assert(widths@[j] == before[j]);
            }
        }
        assert(widths@.map_values(|w: usize| w as nat) =~= wv.take(i as int));
    }
    assert(wv.take(n as int) =~= wv);
    let mut s = String::new();
    push_line(&mut s, headers, &widths, n, false);
    push_char(&mut s, '\n');
    let mut c: usize = 0;
    while c < n
        invariant
            c <= n,
            widths@.len() == n,
            wv.len() == n,
            wv == widths@.map_values(|w: usize| w as nat),
            s@ == line_text(hv, wv, n as nat, false) + seq!['\n'] + dash_rule(wv, c as int),
        decreases n - c,
    {
        assert(wv[c as int] == widths@[c as int] as nat);
        push_repeat(&mut s, '-', widths[c]);
        if c != n - 1 {
            push_str(&mut s, "  ");
        }
        c = c + 1;
        assert(s@ =~= line_text(hv, wv, n as nat, false) + seq!['\n'] + dash_rule(wv, c as int));
    }
    push_char(&mut s, '\n');
    let mut r: usize = 0;
    while r < rows.len()
        invariant
            r <= rows@.len(),
            n == headers@.len(),
            widths@.len() == n,
            wv == widths@.map_values(|w: usize| w as nat),
            rv == rows_views(rows@),
            forall|k: int| 0 <= k < rows@.len() ==> (#[trigger] rows@[k])@.len() <= headers@.len(),
            s@ == line_text(hv, wv, n as nat, false) + seq!['\n'] + dash_rule(wv, n as int) + seq!['\n']
                + rows_text(rv.take(r as int), wv, n as nat, false),
        decreases rows@.len() - r,
    {
        push_line(&mut s, &rows[r], &widths, n, false);
        push_char(&mut s, '\n');
        assert(rv.take(r + 1).drop_last() =~= rv.take(r as int));
        assert(rv.take(r + 1).last() == views(rows@[r as int]@));
        r = r + 1;
        assert(s@ =~= line_text(hv, wv, n as nat, false) + seq!['\n'] + dash_rule(wv, n as int) + seq!['\n']
            + rows_text(rv.take(r as int), wv, n as nat, false));
    }
    assert(rv.take(r as int) =~= rv);
    s
}

/// The cells of a count row: its label and its count.
pub open spec fn count_cells(s: Stat) -> Seq<Seq<char>> {
    seq![s.label@, crate::text::dec(s.count as nat)]
}

/// A count table with the given first title and "Files".
pub open spec fn counts_text(title: Seq<char>, stats: Seq<Stat>) -> Seq<char> {
    plain_table_text(seq![title, "Files"@], stats.map_values(|s: Stat| count_cells(s)))
}

/// Renders counts as a plain table.
pub fn render_counts(title: &str, stats: &Vec<Stat>) -> (r: String)
    ensures
        r@ == counts_text(title@, stats@),
{
    let headers = vec![title.to_owned(), String::from_str("Files")];
    assert(views(headers@) =~= seq![title@, "Files"@]);
    let mut rows: Vec<Vec<String>> = Vec::new();
    let mut i: usize = 0;
    while i < stats.len()
        invariant
            i <= stats@.len(),
            rows_views(rows@) == stats@.take(i as int).map_values(|s: Stat| count_cells(s)),
            forall|k: int| 0 <= k < rows@.len() ==> (#[trigger] rows@[k])@.len() == 2,
        decreases stats@.len() - i,
    {
        let cells = vec![stats[i].label.clone(), crate::text::u64_to_dec(stats[i].count)];
        assert(views(cells@) =~= count_cells(stats@[i as int]));
        let ghost before = rows@;
        rows.push(cells);
        i = i + 1;
        assert(rows_views(rows@) =~= rows_views(before).push(views(rows@[i - 1]@)));
        assert(rows_views(rows@) =~= stats@.take(i as int).map_values(|s: Stat| count_cells(s)));
    }
    assert(stats@.take(i as int) =~= stats@);
    format_plain_table(&headers, &rows)
}

/// The cells of a largest-file row.
pub open spec fn largest_cells(l: LargestStat) -> Seq<Seq<char>> {
    seq![l.filename@, size_text(l.size_bytes as int), l.repo@, l.path@]
}

/// The largest files as a plain table.
pub open spec fn largest_text(rows: Seq<LargestStat>) -> Seq<char> {
    plain_table_text(
        seq!["FILENAME"@, "SIZE"@, "REPOSITORY"@, "PATH"@],
        rows.map_values(|l: LargestStat| largest_cells(l)),
    )
}

/// Renders the largest files as a plain table.
pub fn render_largest(largest: &Vec<LargestStat>) -> (r: String)
    ensures
        r@ == largest_text(largest@),
{
    let headers = strings(&["FILENAME", "SIZE", "REPOSITORY", "PATH"]);
    assert(views(headers@) =~= seq!["FILENAME"@, "SIZE"@, "REPOSITORY"@, "PATH"@]);
    let mut rows: Vec<Vec<String>> = Vec::new();
    let mut i: usize = 0;
    while i < largest.len()
        invariant
            i <= largest@.len(),
            rows_views(rows@) == largest@.take(i as int).map_values(|l: LargestStat| largest_cells(l)),
            forall|k: int| 0 <= k < rows@.len() ==> (#[trigger] rows@[k])@.len() == 4,
        decreases largest@.len() - i,
    {
        let l = &largest[i];
        let cells = vec![l.filename.clone(), format_size(l.size_bytes), l.repo.clone(), l.path.clone()];
        assert(views(cells@) =~= largest_cells(*l));
        let ghost before = rows@;
        rows.push(cells);
        i = i + 1;
        assert(rows_views(rows@) =~= rows_views(before).push(views(rows@[i - 1]@)));
        assert(rows_views(rows@) =~= largest@.take(i as int).map_values(|l: LargestStat| largest_cells(l)));
    }
    assert(largest@.take(i as int) =~= largest@);
    format_plain_table(&headers, &rows)
}

/// The overview as text: the five figures, then the counts by repository and by category.
pub open spec fn overview_text(g: GeneralStats) -> Seq<char> {
    "Number of repositories:      "@ + crate::text::dec(g.repositories_count as nat) + seq!['\n']
        + "Number of indexed wordlists: "@ + crate::text::dec(g.wordlists_count as nat) + seq!['\n']
        + "Total disk usage:            "@ + size_text(g.total_disk_usage as int) + seq!['\n']
        + "Number of compressed files:  "@ + crate::text::dec(g.compressed_count as nat) + seq!['\n']
        + "Number of indexed text files: "@ + crate::text::dec(g.text_count as nat) + seq!['\n'] + seq!['\n']
        + "Repository Breakdown:\n"@ + counts_text("Repository"@, g.repositories@) + seq!['\n']
        + "Category Breakdown:\n"@ + counts_text("Category"@, g.categories@)
}

/// Renders the overview as text.
pub fn render_overview(g: &GeneralStats) -> (r: String)
    ensures
        r@ == overview_text(*g),
{
    let mut s = String::from_str("Number of repositories:      ");
    crate::text::push_dec(&mut s, g.repositories_count);
    push_str(&mut s, "\nNumber of indexed wordlists: ");
    crate::text::push_dec(&mut s, g.wordlists_count);
    push_str(&mut s, "\nTotal disk usage:            ");
    let size = format_size(g.total_disk_usage);
    push_str(&mut s, size.as_str());
    push_str(&mut s, "\nNumber of compressed files:  ");
    crate::text::push_dec(&mut s, g.compressed_count);
    push_str(&mut s, "\nNumber of indexed text files: ");
    crate::text::push_dec(&mut s, g.text_count);
    push_str(&mut s, "\n\nRepository Breakdown:\n");
    let repos = render_counts("Repository", &g.repositories);
    push_str(&mut s, repos.as_str());
    push_str(&mut s, "\nCategory Breakdown:\n");
    let cats = render_counts("Category", &g.categories);
    push_str(&mut s, cats.as_str());
    proof {
        reveal_strlit("\nNumber of indexed wordlists: ");
        reveal_strlit("Number of indexed wordlists: ");
        reveal_strlit("\nTotal disk usage:            ");
        reveal_strlit("Total disk usage:            ");
        reveal_strlit("\nNumber of compressed files:  ");
        reveal_strlit("Number of compressed files:  ");
        reveal_strlit("\nNumber of indexed text files: ");
        reveal_strlit("Number of indexed text files: ");
        reveal_strlit("\n\nRepository Breakdown:\n");
        reveal_strlit("Repository Breakdown:\n");
        reveal_strlit("\nCategory Breakdown:\n");
        reveal_strlit("Category Breakdown:\n");
    }
    assert(s@ =~= overview_text(*g));
    s
}

/// Which statistics were asked for.
#[derive(Clone, PartialEq, Eq, Debug)]
pub enum StatsReport {
    Repositories(Vec<Stat>),
    Categories(Vec<Stat>),
    Largest(Vec<LargestStat>),
    Extensions(Vec<Stat>),
    Overview(GeneralStats),
}

/// Gathers the statistics that the flags ask for: `--repo`, else `--category`, else
/// `--largest`, else `--extensions`, else the overview.
pub fn run_stats(
    index: &Index,
    only_repo: bool,
    only_category: bool,
    only_largest: bool,
    only_extensions: bool,
) -> (r: Result<StatsReport, WlError>)
    ensures
        only_repo ==> (r matches Ok(StatsReport::Repositories(v)) && is_count_table(
            v@,
            field_values(entries_of(index.rows()), StatField::Repository),
            "unknown"@,
        )),
        !only_repo && only_category ==> (r matches Ok(StatsReport::Categories(v)) && is_count_table(
            v@,
            field_values(entries_of(index.rows()), StatField::Category),
            "."@,
        )),
        !only_repo && !only_category && only_largest ==> (r matches Ok(StatsReport::Largest(v))
            && sorted_by_key(v@) && v@.len() == (if index.rows().len() < 20 {
            index.rows().len() as int
        } else {
            20
        }) && exists|all: Seq<LargestStat>|
            #![trigger largest_views(all)]
            sorted_by_key(all) && largest_views(all).to_multiset() == entries_of(index.rows()).map_values(
                |e: WordlistEntry| entry_largest_view(e),
            ).to_multiset() && v@ == all.take(v@.len() as int)),
        !only_repo && !only_category && !only_largest && only_extensions ==> (r matches Ok(
            StatsReport::Extensions(v),
        ) && is_count_table(v@, field_values(entries_of(index.rows()), StatField::Extension), "none"@)),
        !only_repo && !only_category && !only_largest && !only_extensions ==> (r is Err <==> !(i64::MIN
            <= size_sum(entries_of(index.rows())) <= i64::MAX)),
        !only_repo && !only_category && !only_largest && !only_extensions ==> (r is Ok ==> (r matches Ok(
            StatsReport::Overview(g),
        ) && overview_of(entries_of(index.rows()), g))),
{
    if only_repo {
        return Ok(StatsReport::Repositories(query_counts(index, StatField::Repository)));
    }
    if only_category {
        return Ok(StatsReport::Categories(query_counts(index, StatField::Category)));
    }
    if only_largest {
        return Ok(StatsReport::Largest(query_largest(index)));
    }
    if only_extensions {
        return Ok(StatsReport::Extensions(query_counts(index, StatField::Extension)));
    }
    match general_stats(index) {
        Ok(g) => Ok(StatsReport::Overview(g)),
        Err(e) => Err(e),
    }
}

/// The text of a report (its JSON form is the caller's).
pub open spec fn report_text(r: StatsReport) -> Seq<char> {
    match r {
        StatsReport::Repositories(v) => counts_text("Repository"@, v@),
        StatsReport::Categories(v) => counts_text("Category"@, v@),
        StatsReport::Largest(v) => largest_text(v@),
        StatsReport::Extensions(v) => counts_text("Extension"@, v@),
        StatsReport::Overview(g) => overview_text(g),
    }
}

/// Renders a report as text.
pub fn render_stats(report: &StatsReport) -> (r: String)
    ensures
        r@ == report_text(*report),
{
    match report {
        StatsReport::Repositories(v) => render_counts("Repository", v),
        StatsReport::Categories(v) => render_counts("Category", v),
        StatsReport::Largest(v) => render_largest(v),
        StatsReport::Extensions(v) => render_counts("Extension", v),
        StatsReport::Overview(g) => render_overview(g),
    }
}

} // verus!
