//! Finding wordlists that share a name, a size or a content hash.
use vstd::prelude::*;
use crate::db::{entries_of, get_all, Index, WordlistEntry};
use crate::output::opt_or;
use crate::sort::{key_before, lemma_multiset_map, sort_by_key, sorted_by_key, SortKey};
use crate::text::{
    byte_len, int_dec, lemma_seq_lt_total, pad_right, push_char, push_padded, push_repeat, push_str,
    repeat_char, seq_lt, str_byte_len, str_lt, views, i64_to_dec, lemma_filter_push,
};
use crate::output::OutputMode;

verus! {

broadcast use vstd::seq_lib::group_to_multiset_ensures;

/// What makes two wordlists duplicates.
#[derive(Clone, Copy, PartialEq, Eq, Debug)]
pub enum DupMode {
    Name,
    Size,
    Hash,
}

impl DupMode {
    /// The mode the command-line flags ask for: `--size`, else `--hash`, else by name.
    pub fn from_flags(size: bool, hash: bool) -> (r: DupMode)
        ensures
            r == (if size {
                DupMode::Size
            } else if hash {
                DupMode::Hash
            } else {
                DupMode::Name
            }),
    {
        if size {
            DupMode::Size
        } else if hash {
            DupMode::Hash
        } else {
            DupMode::Name
        }
    }
}

impl SortKey for String {
    open spec fn sort_key(&self) -> (int, Seq<char>) {
        (0, self@)
    }

    fn comes_before(&self, other: &Self) -> (r: bool) {
        str_lt(self.as_str(), other.as_str())
    }
}

/// The key under which a wordlist is grouped: its file name, its size in decimal, or its
/// SHA-256 (empty when it has none).
pub open spec fn dup_key(e: WordlistEntry, mode: DupMode) -> Seq<char> {
    match mode {
        DupMode::Name => e.filename@,
        DupMode::Size => int_dec(e.size_bytes as int),
        DupMode::Hash => opt_or(e.sha256, Seq::empty()),
    }
}

/// The key under which a wordlist is grouped.
pub fn duplicate_key(e: &WordlistEntry, mode: DupMode) -> (r: String)
    ensures
        r@ == dup_key(*e, mode),
{
    match mode {
        DupMode::Name => e.filename.clone(),
        DupMode::Size => i64_to_dec(e.size_bytes),
        DupMode::Hash => match &e.sha256 {
            Some(h) => h.clone(),
            None => String::new(),
        },
    }
}

/// The paths of the wordlists with the given key, in order.
pub open spec fn paths_with_key(entries: Seq<WordlistEntry>, mode: DupMode, key: Seq<char>) -> Seq<Seq<char>>
    decreases entries.len(),
{
    if entries.len() == 0 {
        Seq::empty()
    } else {
        let before = paths_with_key(entries.drop_last(), mode, key);
        if dup_key(entries.last(), mode) == key {
            before.push(entries.last().path@)
        } else {
            before
        }
    }
}

/// The wordlists of a key are found by their fields: in name mode, the paths under a key are
/// those of the wordlists whose file name is the key (so "common.txt" and "common.lst" never
/// share a group); in size mode, those whose size in decimal is the key; in hash mode, those
/// whose recorded SHA-256 is the key (a wordlist without one is under the empty key).
pub proof fn law_groups_follow_fields(entries: Seq<WordlistEntry>, key: Seq<char>)
    ensures
        paths_with_key(entries, DupMode::Name, key) == entries.filter(|e: WordlistEntry| e.filename@ == key).map_values(
            |e: WordlistEntry| e.path@,
        ),
        paths_with_key(entries, DupMode::Size, key) == entries.filter(
            |e: WordlistEntry| int_dec(e.size_bytes as int) == key,
        ).map_values(|e: WordlistEntry| e.path@),
        paths_with_key(entries, DupMode::Hash, key) == entries.filter(
            |e: WordlistEntry|
                match e.sha256 {
                    Some(h) => h@ == key,
                    None => key.len() == 0,
                },
        ).map_values(|e: WordlistEntry| e.path@),
    decreases entries.len(),
{
    if entries.len() > 0 {
        let front = entries.drop_last();
        let e = entries.last();
        law_groups_follow_fields(front, key);
        assert(front.push(e) =~= entries);
        let pn = |e: WordlistEntry| e.filename@ == key;
        let ps = |e: WordlistEntry| int_dec(e.size_bytes as int) == key;
        let ph = |e: WordlistEntry|
            match e.sha256 {
                Some(h) => h@ == key,
                None => key.len() == 0,
            };
        let path = |e: WordlistEntry| e.path@;
        lemma_filter_push(front, e, pn);
        lemma_filter_push(front, e, ps);
        lemma_filter_push(front, e, ph);
        assert(front.filter(pn).push(e).map_values(path) =~= front.filter(pn).map_values(path).push(e.path@));
        assert(front.filter(ps).push(e).map_values(path) =~= front.filter(ps).map_values(path).push(e.path@));
        assert(front.filter(ph).push(e).map_values(path) =~= front.filter(ph).map_values(path).push(e.path@));
        if e.sha256 is None {
            assert(opt_or(e.sha256, Seq::empty()) =~= Seq::<char>::empty());
            if key.len() == 0 {
                assert(key =~= Seq::<char>::empty());
            }
        }
        assert((dup_key(e, DupMode::Hash) == key) == ph(e));
    } else {
        assert(entries.filter(|e: WordlistEntry| e.filename@ == key) =~= Seq::<WordlistEntry>::empty()) by {
            reveal_with_fuel(Seq::filter, 1);
        }
        assert(entries.filter(|e: WordlistEntry| int_dec(e.size_bytes as int) == key) =~= Seq::<WordlistEntry>::empty()) by {
            reveal_with_fuel(Seq::filter, 1);
        }
        assert(entries.filter(
            |e: WordlistEntry|
                match e.sha256 {
                    Some(h) => h@ == key,
                    None => key.len() == 0,
                },
        ) =~= Seq::<WordlistEntry>::empty()) by {
            reveal_with_fuel(Seq::filter, 1);
        }
    }
}

/// A set of wordlists that share a key.
#[derive(Clone, PartialEq, Eq, Debug)]
pub struct DuplicateGroup {
    pub key: String,
    pub paths: Vec<String>,
}

impl SortKey for DuplicateGroup {
    open spec fn sort_key(&self) -> (int, Seq<char>) {
        (0, self.key@)
    }

    fn comes_before(&self, other: &Self) -> (r: bool) {
        str_lt(self.key.as_str(), other.key.as_str())
    }
}

/// What a reported group must be: a non-empty key shared by at least two wordlists, with
/// exactly their paths, sorted.
pub open spec fn valid_group(g: DuplicateGroup, entries: Seq<WordlistEntry>, mode: DupMode) -> bool {
    &&& g.key@.len() > 0
    &&& g.paths@.len() >= 2
    &&& sorted_by_key(g.paths@)
    &&& views(g.paths@).to_multiset() == paths_with_key(entries, mode, g.key@).to_multiset()
}

/// Equal multisets of strings have equal multisets of views.
proof fn lemma_views_multiset(a: Seq<String>, b: Seq<String>)
    requires
        a.to_multiset() == b.to_multiset(),
    ensures
        views(a).to_multiset() == views(b).to_multiset(),
{
    lemma_multiset_map(a, b, |s: String| s@);
}

proof fn lemma_paths_with_key_len(entries: Seq<WordlistEntry>, mode: DupMode, key: Seq<char>, i: int)
    requires
        0 <= i < entries.len(),
        dup_key(entries[i], mode) == key,
    ensures
        paths_with_key(entries, mode, key).len() >= 1,
    decreases entries.len(),
{
    if i < entries.len() - 1 {
        lemma_paths_with_key_len(entries.drop_last(), mode, key, i);
    }
}

/// A key that no group has yet has no paths so far.
proof fn lemma_no_paths(prefix: Seq<WordlistEntry>, mode: DupMode, key: Seq<char>, ks: Seq<Seq<char>>)
    requires
        key.len() > 0,
        forall|a: int| 0 <= a < ks.len() ==> ks[a] != key,
        forall|k: int|
            0 <= k < prefix.len() && dup_key(#[trigger] prefix[k], mode).len() > 0 ==> exists|a: int|
                0 <= a < ks.len() && ks[a] == dup_key(prefix[k], mode),
    ensures
        paths_with_key(prefix, mode, key) == Seq::<Seq<char>>::empty(),
    decreases prefix.len(),
{
    if prefix.len() > 0 {
        let d = prefix.drop_last();
        assert forall|k: int| 0 <= k < d.len() && dup_key(#[trigger] d[k], mode).len() > 0 implies exists|a: int|
            0 <= a < ks.len() && ks[a] == dup_key(d[k], mode) by {
            assert(d[k] == prefix[k]);
        }
        lemma_no_paths(d, mode, key, ks);
        if dup_key(prefix.last(), mode) == key {
            let k = prefix.len() - 1;
            assert(dup_key(prefix[k], mode).len() > 0);
        }
    }
}

/// The non-empty keys of the wordlists in order of first appearance, each with the paths of
/// its wordlists in order.
fn gather_groups(entries: &Vec<WordlistEntry>, mode: DupMode) -> (r: (Vec<String>, Vec<Vec<String>>))
    ensures
        r.0@.len() == r.1@.len(),
        forall|a: int, b: int| 0 <= a < b < r.0@.len() ==> r.0@[a]@ != r.0@[b]@,
        forall|a: int|
            0 <= a < r.0@.len() ==> views((#[trigger] r.1@[a])@) == paths_with_key(entries@, mode, r.0@[a]@)
                && r.0@[a]@.len() > 0,
        forall|k: int|
            0 <= k < entries@.len() && dup_key(#[trigger] entries@[k], mode).len() > 0 ==> exists|a: int|
                0 <= a < r.0@.len() && r.0@[a]@ == dup_key(entries@[k], mode),
{
    let mut keys: Vec<String> = Vec::new();
    let mut groups: Vec<Vec<String>> = Vec::new();
    let mut i: usize = 0;
    while i < entries.len()
        invariant
            i <= entries@.len(),
            keys@.len() == groups@.len(),
            forall|a: int, b: int| 0 <= a < b < keys@.len() ==> keys@[a]@ != keys@[b]@,
            forall|a: int|
                0 <= a < keys@.len() ==> views((#[trigger] groups@[a])@) == paths_with_key(
                    entries@.take(i as int),
                    mode,
                    keys@[a]@,
                ),
            forall|a: int| 0 <= a < keys@.len() ==> (#[trigger] keys@[a])@.len() > 0,
            forall|k: int|
                0 <= k < i && dup_key(#[trigger] entries@[k], mode).len() > 0 ==> exists|a: int|
                    0 <= a < keys@.len() && keys@[a]@ == dup_key(entries@[k], mode),
        decreases entries@.len() - i,
    {
        let e = &entries[i];
        let key = duplicate_key(e, mode);
        let ghost old_keys = keys@;
        let ghost mut w: int = 0;
        let ghost prefix = entries@.take(i as int);
        let ghost next = entries@.take(i + 1);
        assert(next =~= prefix.push(entries@[i as int]));
        if !key.as_str().is_empty() {
            let mut g: usize = 0;
            while g < keys.len()
                invariant
                    g <= keys@.len(),
                    forall|a: int| 0 <= a < g ==> keys@[a]@ != key@,
                ensures
                    g <= keys@.len(),
                    g < keys@.len() ==> keys@[g as int]@ == key@,
                    forall|a: int| 0 <= a < g ==> keys@[a]@ != key@,
                decreases keys@.len() - g,
            {
                if keys[g] == key {
                    break;
                }
                g = g + 1;
            }
            if g < keys.len() {
                proof {
                    w = g as int;
                }
                let ghost old_groups = groups@;
                let mut paths = groups.remove(g);
                paths.push(e.path.clone());
                groups.insert(g, paths);
                assert forall|a: int| 0 <= a < keys@.len() implies views((#[trigger] groups@[a])@)
                    == paths_with_key(next, mode, keys@[a]@) by {
                    lemma_paths_step(prefix, entries@[i as int], mode, keys@[a]@);
                    if a != g {
                        assert(groups@[a] == old_groups[a]);
                    } else {
                        assert(views(groups@[a]@) =~= views(old_groups[a]@).push(e.path@));
                    }
                }
            } else {
                assert(paths_with_key(prefix, mode, key@) =~= Seq::<Seq<char>>::empty()) by {
                    assert forall|k: int| 0 <= k < prefix.len() && dup_key(#[trigger] prefix[k], mode).len() > 0 implies exists|a: int|
                        0 <= a < views(keys@).len() && views(keys@)[a] == dup_key(prefix[k], mode) by {
                        assert(prefix[k] == entries@[k]);
                        let a = choose|a: int| 0 <= a < keys@.len() && keys@[a]@ == dup_key(entries@[k], mode);
                        assert(views(keys@)[a] == keys@[a]@);
                    }
                    lemma_no_paths(prefix, mode, key@, views(keys@));
                }
                let ghost old_groups = groups@;
                let mut paths: Vec<String> = Vec::new();
                paths.push(e.path.clone());
                let ghost ok = keys@;
                keys.push(key);
                groups.push(paths);
                assert forall|a: int| 0 <= a < keys@.len() implies (#[trigger] keys@[a])@.len() > 0 by {
                    if a < keys@.len() - 1 {
                        assert(keys@[a] == ok[a]);
                    }
                }
                proof {
                    w = keys@.len() - 1;
                }
                assert forall|a: int| 0 <= a < keys@.len() implies views((#[trigger] groups@[a])@)
                    == paths_with_key(next, mode, keys@[a]@) by {
                    lemma_paths_step(prefix, entries@[i as int], mode, keys@[a]@);
                    if a < keys@.len() - 1 {
                        assert(groups@[a] == old_groups[a]);
                    } else {
                        assert(views(groups@[a]@) =~= seq![entries@[i as int].path@]);
                    }
                }
            }
        } else {
            assert forall|a: int| 0 <= a < keys@.len() implies views((#[trigger] groups@[a])@)
                == paths_with_key(next, mode, keys@[a]@) by {
                assert(key@.len() == 0);
                assert(views(groups@[a]@) == paths_with_key(entries@.take(i as int), mode, keys@[a]@));
                assert(keys@[a]@.len() > 0);
                assert(dup_key(entries@[i as int], mode) != keys@[a]@);
                lemma_paths_step(prefix, entries@[i as int], mode, keys@[a]@);
            }
        }
        assert forall|k: int| 0 <= k < i + 1 && dup_key(#[trigger] entries@[k], mode).len() > 0 implies exists|a: int|
            0 <= a < keys@.len() && keys@[a]@ == dup_key(entries@[k], mode) by {
            if k == i {
                assert(keys@[w]@ == key@);
            } else {
                let a = choose|a: int| 0 <= a < old_keys.len() && old_keys[a]@ == dup_key(entries@[k], mode);
                assert(keys@[a] == old_keys[a]);
            }
        }
        i = i + 1;
    }
    assert(entries@.take(i as int) =~= entries@);
    assert forall|k: int|
        0 <= k < entries@.len() && dup_key(#[trigger] entries@[k], mode).len() > 0 implies exists|a: int|
            0 <= a < keys@.len() && keys@[a]@ == dup_key(entries@[k], mode) by {
        assert(k < i);
    }
    let r = (keys, groups);
    assert forall|k: int|
        0 <= k < entries@.len() && dup_key(#[trigger] entries@[k], mode).len() > 0 implies exists|a: int|
            0 <= a < r.0@.len() && r.0@[a]@ == dup_key(entries@[k], mode) by {
        let a = choose|a: int| 0 <= a < r.0@.len() && r.0@[a]@ == dup_key(entries@[k], mode);
    }
    r
}

/// The paths of a key after one more wordlist.
proof fn lemma_paths_step(prefix: Seq<WordlistEntry>, e: WordlistEntry, mode: DupMode, key: Seq<char>)
    ensures
        paths_with_key(prefix.push(e), mode, key) == (if dup_key(e, mode) == key {
            paths_with_key(prefix, mode, key).push(e.path@)
        } else {
            paths_with_key(prefix, mode, key)
        }),
{
    assert(prefix.push(e).drop_last() =~= prefix);
}

/// Groups wordlists by key: every non-empty key shared by at least two wordlists gives one
/// group with their paths in order; the groups come in order of key.
pub fn find_duplicates(entries: &Vec<WordlistEntry>, mode: DupMode) -> (r: Vec<DuplicateGroup>)
    ensures
        forall|a: int, b: int| 0 <= a < b < r@.len() ==> seq_lt(#[trigger] r@[a].key@, #[trigger] r@[b].key@),
        forall|a: int| 0 <= a < r@.len() ==> valid_group(#[trigger] r@[a], entries@, mode),
        forall|k: int|
            0 <= k < entries@.len() && dup_key(#[trigger] entries@[k], mode).len() > 0 && paths_with_key(
                entries@,
                mode,
                dup_key(entries@[k], mode),
            ).len() >= 2 ==> exists|a: int| 0 <= a < r@.len() && r@[a].key@ == dup_key(entries@[k], mode),
{
    let (keys, groups) = gather_groups(entries, mode);
    // Keep the shared keys, with their paths sorted.
    let ghost all_keys = keys@;
    let ghost all_groups = groups@;
    let mut found: Vec<DuplicateGroup> = Vec::new();
    let mut j: usize = 0;
    while j < keys.len()
        invariant
            j <= keys@.len(),
            keys@ == all_keys,
            groups@ == all_groups,
            keys@.len() == groups@.len(),
            forall|a: int, b: int| 0 <= a < b < found@.len() ==> found@[a].key@ != found@[b].key@,
            forall|a: int| 0 <= a < found@.len() ==> valid_group(#[trigger] found@[a], entries@, mode),
            forall|a: int| #![trigger found@[a]] 0 <= a < found@.len() ==> exists|b: int| 0 <= b < j && found@[a].key@ == #[trigger] keys@[b]@,
            forall|b: int|
                0 <= b < j && (#[trigger] groups@[b])@.len() >= 2 ==> exists|a: int| 0 <= a < found@.len() && found@[a].key@ == keys@[b]@,
            forall|a: int, b: int| 0 <= a < b < keys@.len() ==> keys@[a]@ != keys@[b]@,
            forall|a: int|
                0 <= a < keys@.len() ==> views((#[trigger] groups@[a])@) == paths_with_key(entries@, mode, keys@[a]@)
                    && keys@[a]@.len() > 0,
        decreases keys@.len() - j,
    {
        if groups[j].len() >= 2 {
            let paths = groups[j].clone();
            let ghost unsorted = groups@[j as int]@;
            assert(paths@ == unsorted);
            let sorted = sort_by_key(paths);
            proof {
                lemma_views_multiset(sorted@, unsorted);
                assert(sorted@.to_multiset().len() == sorted@.len());
                assert(unsorted.to_multiset().len() == unsorted.len());
            }
            let ghost old_found = found@;
            found.push(DuplicateGroup { key: keys[j].clone(), paths: sorted });
            assert forall|a: int, b: int| 0 <= a < b < found@.len() implies found@[a].key@ != found@[b].key@ by {
                if b == found@.len() - 1 {
                    let bb = choose|bb: int| 0 <= bb < j && old_found[a].key@ == #[trigger] keys@[bb]@;
                    assert(found@[a] == old_found[a]);
                }
            }
            assert forall|a: int| #![trigger found@[a]] 0 <= a < found@.len() implies exists|b: int| 0 <= b < j + 1 && found@[a].key@ == #[trigger] keys@[b]@ by {
                if a < found@.len() - 1 {
                    assert(found@[a] == old_found[a]);
                    let bb = choose|bb: int| 0 <= bb < j && old_found[a].key@ == #[trigger] keys@[bb]@;
                    assert(found@[a].key@ == keys@[bb]@);
                } else {
                    assert(found@[a].key@ == keys@[j as int]@);
                }
            }
            assert forall|b: int| 0 <= b < j + 1 && (#[trigger] groups@[b])@.len() >= 2 implies exists|a: int|
                0 <= a < found@.len() && found@[a].key@ == keys@[b]@ by {
                if b < j {
                    let a = choose|a: int| 0 <= a < old_found.len() && old_found[a].key@ == keys@[b]@;
                    assert(found@[a] == old_found[a]);
                } else {
                    assert(found@[found@.len() - 1].key@ == keys@[b]@);
                }
            }
            assert forall|a: int| 0 <= a < found@.len() implies valid_group(#[trigger] found@[a], entries@, mode) by {
                if a < found@.len() - 1 {
                    assert(found@[a] == old_found[a]);
                } else {
                    assert(views(unsorted) == paths_with_key(entries@, mode, keys@[j as int]@));
                }
            }
        }
        j = j + 1;
    }
    let ghost unsorted_groups = found@;
    let result = sort_by_key(found);
    proof {
        assert(unsorted_groups.no_duplicates()) by {
            assert forall|a: int, b: int| 0 <= a < unsorted_groups.len() && 0 <= b < unsorted_groups.len() && a != b implies unsorted_groups[a] != unsorted_groups[b] by {
                if a < b {
                    assert(unsorted_groups[a].key@ != unsorted_groups[b].key@);
                } else {
                    assert(unsorted_groups[b].key@ != unsorted_groups[a].key@);
                }
            }
        }
        unsorted_groups.lemma_multiset_has_no_duplicates();
        result@.lemma_multiset_has_no_duplicates_conv();
        assert forall|a: int| 0 <= a < result@.len() implies unsorted_groups.contains(#[trigger] result@[a]) by {
            assert(result@.to_multiset().count(result@[a]) > 0);
        }
        assert forall|a: int| 0 <= a < unsorted_groups.len() implies result@.contains(#[trigger] unsorted_groups[a]) by {
            assert(unsorted_groups.to_multiset().count(unsorted_groups[a]) > 0);
        }
        assert forall|a: int, b: int| 0 <= a < b < result@.len() implies seq_lt(#[trigger] result@[a].key@, #[trigger] result@[b].key@) by {
            assert(unsorted_groups.contains(result@[a]));
            assert(unsorted_groups.contains(result@[b]));
            let x = choose|x: int| 0 <= x < unsorted_groups.len() && unsorted_groups[x] == result@[a];
            let y = choose|y: int| 0 <= y < unsorted_groups.len() && unsorted_groups[y] == result@[b];
            assert(!key_before(result@[b].sort_key(), result@[a].sort_key()));
            assert(result@[a] != result@[b]);
            assert(x != y);
            lemma_seq_lt_total(result@[a].key@, result@[b].key@);
        }
        assert forall|a: int| 0 <= a < result@.len() implies valid_group(#[trigger] result@[a], entries@, mode) by {
            assert(unsorted_groups.contains(result@[a]));
        }
        assert forall|k: int|
            0 <= k < entries@.len() && dup_key(#[trigger] entries@[k], mode).len() > 0 && paths_with_key(
                entries@,
                mode,
                dup_key(entries@[k], mode),
            ).len() >= 2 implies exists|a: int| 0 <= a < result@.len() && result@[a].key@ == dup_key(entries@[k], mode) by {
            let b = choose|b: int| 0 <= b < all_keys.len() && all_keys[b]@ == dup_key(entries@[k], mode);
            assert(views(all_groups[b]@).len() >= 2);
            let a = choose|a: int| 0 <= a < unsorted_groups.len() && unsorted_groups[a].key@ == all_keys[b]@;
            assert(result@.contains(unsorted_groups[a]));
            let c = choose|c: int| 0 <= c < result@.len() && result@[c] == unsorted_groups[a];
        }
    }
    result
}


/// The separator printed after each group in plain output.
pub open spec fn group_separator() -> Seq<char> {
    "-----------------------------------"@
}

/// The paths of a group, each indented by four spaces, one per line.
pub open spec fn indented_paths(paths: Seq<Seq<char>>) -> Seq<char>
    decreases paths.len(),
{
    if paths.len() == 0 {
        Seq::empty()
    } else {
        indented_paths(paths.drop_last()) + "    "@ + paths.last() + seq!['\n']
    }
}

/// Plain output: each group's key, its indented paths, a blank line and a separator line.
pub open spec fn plain_groups(groups: Seq<DuplicateGroup>) -> Seq<char>
    decreases groups.len(),
{
    if groups.len() == 0 {
        Seq::empty()
    } else {
        let g = groups.last();
        plain_groups(groups.drop_last()) + g.key@ + seq!['\n'] + indented_paths(views(g.paths@))
            + seq!['\n'] + group_separator() + seq!['\n']
    }
}

/// The widest key in bytes, at least `floor`.
pub open spec fn key_width(groups: Seq<DuplicateGroup>, floor: nat) -> nat
    decreases groups.len(),
{
    if groups.len() == 0 {
        floor
    } else {
        let w = key_width(groups.drop_last(), floor);
        let k = byte_len(groups.last().key@) as nat;
        if k > w {
            k
        } else {
            w
        }
    }
}

/// The widest of some paths in bytes, at least `floor`.
pub open spec fn paths_width(paths: Seq<Seq<char>>, floor: nat) -> nat
    decreases paths.len(),
{
    if paths.len() == 0 {
        floor
    } else {
        let w = paths_width(paths.drop_last(), floor);
        let k = byte_len(paths.last()) as nat;
        if k > w {
            k
        } else {
            w
        }
    }
}

/// The widest path of all groups in bytes, at least `floor`.
pub open spec fn path_width(groups: Seq<DuplicateGroup>, floor: nat) -> nat
    decreases groups.len(),
{
    if groups.len() == 0 {
        floor
    } else {
        paths_width(views(groups.last().paths@), path_width(groups.drop_last(), floor))
    }
}

/// The table lines of one group: its key padded, two spaces, and each path.
pub open spec fn group_rows(key: Seq<char>, paths: Seq<Seq<char>>, w: nat) -> Seq<char>
    decreases paths.len(),
{
    if paths.len() == 0 {
        Seq::empty()
    } else {
        group_rows(key, paths.drop_last(), w) + pad_right(key, w) + "  "@ + paths.last() + seq!['\n']
    }
}

/// The table lines of all groups.
pub open spec fn table_groups_rows(groups: Seq<DuplicateGroup>, w: nat) -> Seq<char>
    decreases groups.len(),
{
    if groups.len() == 0 {
        Seq::empty()
    } else {
        table_groups_rows(groups.drop_last(), w) + group_rows(groups.last().key@, views(groups.last().paths@), w)
    }
}

/// Table output: nothing without groups; otherwise a header, a dashed rule, and one line per
/// path with its key, the key column at least as wide as its title.
pub open spec fn table_groups(groups: Seq<DuplicateGroup>) -> Seq<char> {
    if groups.len() == 0 {
        Seq::empty()
    } else {
        let w0 = key_width(groups, 13);
        let w1 = path_width(groups, 4);
        pad_right("DUPLICATE KEY"@, w0) + "  PATH\n"@ + repeat_char('-', w0) + "  "@ + repeat_char('-', w1)
            + seq!['\n'] + table_groups_rows(groups, w0)
    }
}

/// What `render_duplicates` prints; JSON is left to the caller.
pub open spec fn duplicates_text(groups: Seq<DuplicateGroup>, mode: OutputMode) -> Option<Seq<char>> {
    match mode {
        OutputMode::Plain => Some(plain_groups(groups)),
        OutputMode::Json => None,
        OutputMode::Table => Some(table_groups(groups)),
    }
}

fn max_usize(a: usize, b: usize) -> (r: usize)
    ensures
        r == if b > a { b } else { a },
{
    if b > a {
        b
    } else {
        a
    }
}

/// Renders duplicate groups as plain text or as a table. JSON output is the caller's.
pub fn render_duplicates(groups: &Vec<DuplicateGroup>, mode: OutputMode) -> (r: Option<String>)
    ensures
        match r {
            Some(t) => duplicates_text(groups@, mode) == Some(t@),
            None => duplicates_text(groups@, mode) is None,
        },
{
    match mode {
        OutputMode::Json => None,
        OutputMode::Plain => {
            let mut s = String::new();
            let mut i: usize = 0;
            while i < groups.len()
                invariant
                    i <= groups@.len(),
                    s@ == plain_groups(groups@.take(i as int)),
                decreases groups@.len() - i,
            {
                let g = &groups[i];
                let ghost start = s@;
                push_str(&mut s, g.key.as_str());
                push_char(&mut s, '\n');
                let ghost mid = s@;
                let mut k: usize = 0;
                while k < g.paths.len()
                    invariant
                        k <= g.paths@.len(),
                        s@ == mid + indented_paths(views(g.paths@).take(k as int)),
                    decreases g.paths@.len() - k,
                {
                    push_str(&mut s, "    ");
                    push_str(&mut s, g.paths[k].as_str());
                    push_char(&mut s, '\n');
                    assert(views(g.paths@).take(k + 1).drop_last() =~= views(g.paths@).take(k as int));
                    k = k + 1;
                    assert(s@ =~= mid + indented_paths(views(g.paths@).take(k as int)));
                }
                assert(views(g.paths@).take(k as int) =~= views(g.paths@));
                push_char(&mut s, '\n');
                push_str(&mut s, "-----------------------------------");
                push_char(&mut s, '\n');
                assert(groups@.take(i + 1).drop_last() =~= groups@.take(i as int));
                i = i + 1;
                assert(s@ =~= plain_groups(groups@.take(i as int)));
            }
            assert(groups@.take(i as int) =~= groups@);
            Some(s)
        },
        OutputMode::Table => {
            if groups.len() == 0 {
                return Some(String::new());
            }
            let mut w0: usize = 13;
            let mut w1: usize = 4;
            let mut i: usize = 0;
            while i < groups.len()
                invariant
                    i <= groups@.len(),
                    w0 as nat == key_width(groups@.take(i as int), 13),
                    w1 as nat == path_width(groups@.take(i as int), 4),
                decreases groups@.len() - i,
            {
                let g = &groups[i];
                assert(groups@.take(i + 1).drop_last() =~= groups@.take(i as int));
                w0 = max_usize(w0, str_byte_len(g.key.as_str()));
                let ghost base = w1 as nat;
                let mut k: usize = 0;
                while k < g.paths.len()
                    invariant
                        k <= g.paths@.len(),
                        w1 as nat == paths_width(views(g.paths@).take(k as int), base),
                    decreases g.paths@.len() - k,
                {
                    assert(views(g.paths@).take(k + 1).drop_last() =~= views(g.paths@).take(k as int));
                    w1 = max_usize(w1, str_byte_len(g.paths[k].as_str()));
                    k = k + 1;
                }
                assert(views(g.paths@).take(k as int) =~= views(g.paths@));
                i = i + 1;
            }
            assert(groups@.take(i as int) =~= groups@);
            let mut s = String::new();
            push_padded(&mut s, "DUPLICATE KEY", w0);
            push_str(&mut s, "  PATH\n");
            push_repeat(&mut s, '-', w0);
            push_str(&mut s, "  ");
            push_repeat(&mut s, '-', w1);
            push_char(&mut s, '\n');
            let ghost head = s@;
            let mut j: usize = 0;
            while j < groups.len()
                invariant
                    j <= groups@.len(),
                    s@ == head + table_groups_rows(groups@.take(j as int), w0 as nat),
                decreases groups@.len() - j,
            {
                let g = &groups[j];
                let ghost mid = s@;
                let mut k: usize = 0;
                while k < g.paths.len()
                    invariant
                        k <= g.paths@.len(),
                        s@ == mid + group_rows(g.key@, views(g.paths@).take(k as int), w0 as nat),
                    decreases g.paths@.len() - k,
                {
                    push_padded(&mut s, g.key.as_str(), w0);
                    push_str(&mut s, "  ");
                    push_str(&mut s, g.paths[k].as_str());
                    push_char(&mut s, '\n');
                    assert(views(g.paths@).take(k + 1).drop_last() =~= views(g.paths@).take(k as int));
                    k = k + 1;
                    assert(s@ =~= mid + group_rows(g.key@, views(g.paths@).take(k as int), w0 as nat));
                }
                assert(views(g.paths@).take(k as int) =~= views(g.paths@));
                assert(groups@.take(j + 1).drop_last() =~= groups@.take(j as int));
                j = j + 1;
                assert(s@ =~= head + table_groups_rows(groups@.take(j as int), w0 as nat));
            }
            assert(groups@.take(j as int) =~= groups@);
            Some(s)
        },
    }
}

/// What a search for duplicates returns: groups in strictly increasing order of key, each a
/// valid group of the entries, and a group for every non-empty key that at least two entries
/// share.
pub open spec fn duplicate_report(entries: Seq<WordlistEntry>, mode: DupMode, r: Seq<DuplicateGroup>) -> bool {
    &&& forall|a: int, b: int| 0 <= a < b < r.len() ==> seq_lt(#[trigger] r[a].key@, #[trigger] r[b].key@)
    &&& forall|a: int| 0 <= a < r.len() ==> valid_group(#[trigger] r[a], entries, mode)
    &&& forall|k: int|
        0 <= k < entries.len() && dup_key(#[trigger] entries[k], mode).len() > 0 && paths_with_key(
            entries,
            mode,
            dup_key(entries[k], mode),
        ).len() >= 2 ==> exists|a: int| 0 <= a < r.len() && r[a].key@ == dup_key(entries[k], mode)
}

/// The duplicate groups of the index's wordlists, with their text for the output mode
/// (`None` for JSON, which the caller writes from the groups).
pub fn run_duplicates(index: &Index, dup_mode: DupMode, mode: OutputMode) -> (r: (Vec<DuplicateGroup>, Option<String>))
    ensures
        duplicate_report(entries_of(index.rows()), dup_mode, r.0@),
        match r.1 {
            Some(t) => duplicates_text(r.0@, mode) == Some(t@),
            None => duplicates_text(r.0@, mode) is None,
        },
{
    let entries = get_all(index);
    let groups = find_duplicates(&entries, dup_mode);
    let text = render_duplicates(&groups, mode);
    (groups, text)
}

} // verus!
