//! Exact and fuzzy lookup of wordlists by name.
use vstd::prelude::*;
use vstd::string::StringExecFns;
use fuzzy_matcher::FuzzyMatcher;
use fuzzy_matcher::skim::SkimMatcherV2;
use crate::db::{get_all, get_by_name, get_tags_for_wordlist, entries_of, name_matches, Index, IndexedWordlist, WordlistEntry};
use crate::listing::{entry_tags, opt_str, tag_matches, tags_pass};
use crate::text::views;
use crate::sort::{key_before, lemma_multiset_map, sort_by_key, sorted_by_key, SortKey};
use crate::text::{ascii_lower_char, push_str, seq_lt, str_lt};

verus! {

broadcast use vstd::seq_lib::group_to_multiset_ensures;

/// The least score a fuzzy match needs to stand in for an exact one.
pub const FUZZY_MIN_SCORE: i64 = 50;

/// How far the best fuzzy match must lead the next one to stand in for an exact one.
pub const FUZZY_MIN_GAP: i64 = 20;

/// How many fuzzy results a search keeps.
pub const FUZZY_LIMIT: usize = 10;

/// A fuzzy match of a wordlist's file name.
#[derive(Clone, PartialEq, Eq, Debug)]
pub struct FuzzyResult {
    pub score: i64,
    pub filename: String,
    pub repo: String,
    pub path: String,
}

impl SortKey for FuzzyResult {
    open spec fn sort_key(&self) -> (int, Seq<char>) {
        (self.score as int, self.path@)
    }

    fn comes_before(&self, other: &Self) -> (r: bool) {
        self.score > other.score || (self.score == other.score && str_lt(
            self.path.as_str(),
            other.path.as_str(),
        ))
    }
}

/// The score that skim's matcher (`SkimMatcherV2::default().fuzzy_match`) gives a choice
/// for a pattern, `None` when the pattern does not match.
pub uninterp spec fn skim_score(choice: Seq<char>, pattern: Seq<char>) -> Option<i64>;

/// Whether two characters match: exactly, or ignoring ASCII case when `case_sensitive` is off.
pub open spec fn chars_match(a: char, b: char, case_sensitive: bool) -> bool {
    if case_sensitive {
        a == b
    } else {
        ascii_lower_char(a) == ascii_lower_char(b)
    }
}

/// Whether the pattern's characters occur in order in the choice (greedy left-to-right).
pub open spec fn in_order(choice: Seq<char>, pattern: Seq<char>, case_sensitive: bool) -> bool
    decreases choice.len(),
{
    if pattern.len() == 0 {
        true
    } else if choice.len() == 0 {
        false
    } else if chars_match(choice[0], pattern[0], case_sensitive) {
        in_order(choice.drop_first(), pattern.drop_first(), case_sensitive)
    } else {
        in_order(choice.drop_first(), pattern, case_sensitive)
    }
}

/// Smart case: a pattern with an ASCII upper-case letter matches case-sensitively.
pub open spec fn has_ascii_upper(s: Seq<char>) -> bool {
    exists|i: int| 0 <= i < s.len() && 'A' <= #[trigger] s[i] && s[i] <= 'Z'
}

/// `SkimMatcherV2::default().fuzzy_match`. Its score is named by `skim_score`. As the crate's
/// source shows, an empty pattern scores 0, and a pattern matches exactly when its characters
/// occur in order in the choice (case-sensitively only when the pattern has an ASCII
/// upper-case letter). How the score is computed is not stated.
#[verifier::external_body]
fn skim_fuzzy_match(choice: &str, pattern: &str) -> (r: Option<i64>)
    ensures
        r == skim_score(choice@, pattern@),
        pattern@.len() == 0 ==> r == Some(0i64),
        r is Some <==> in_order(choice@, pattern@, has_ascii_upper(pattern@)),
{
    SkimMatcherV2::default().fuzzy_match(choice, pattern)
}

/// The fuzzy result for an entry that matched with the given score.
pub open spec fn result_of(e: WordlistEntry, score: i64) -> (i64, Seq<char>, Seq<char>, Seq<char>) {
    (
        score,
        e.filename@,
        match e.source_repo {
            Some(r) => r@,
            None => "unknown"@,
        },
        e.path@,
    )
}

/// The view of a fuzzy result.
pub open spec fn fuzzy_view(r: FuzzyResult) -> (i64, Seq<char>, Seq<char>, Seq<char>) {
    (r.score, r.filename@, r.repo@, r.path@)
}

/// The views of a sequence of fuzzy results.
pub open spec fn fuzzy_views(s: Seq<FuzzyResult>) -> Seq<(i64, Seq<char>, Seq<char>, Seq<char>)> {
    s.map_values(|x: FuzzyResult| fuzzy_view(x))
}

/// The matches among `entries` given their scores, in the entries' order.
pub open spec fn candidates(entries: Seq<WordlistEntry>, scores: Seq<Option<i64>>) -> Seq<
    (i64, Seq<char>, Seq<char>, Seq<char>),
>
    decreases entries.len(),
{
    if entries.len() == 0 {
        Seq::empty()
    } else {
        let before = candidates(entries.drop_last(), scores);
        let i = entries.len() - 1;
        match scores[i] {
            Some(sc) => before.push(result_of(entries[i], sc)),
            None => before,
        }
    }
}

/// A copy of an optional repository name, "unknown" when there is none.
fn repo_or_unknown(r: &Option<String>) -> (s: String)
    ensures
        s@ == (match *r {
            Some(x) => x@,
            None => "unknown"@,
        }),
{
    match r {
        Some(x) => x.clone(),
        None => String::from_str("unknown"),
    }
}

/// Ranks scored entries: those with a score become results, ordered by score (highest
/// first) then path, and the first ten are kept.
pub fn rank_fuzzy(entries: &Vec<WordlistEntry>, scores: &Vec<Option<i64>>) -> (r: Vec<FuzzyResult>)
    requires
        scores@.len() == entries@.len(),
    ensures
        sorted_by_key(r@),
        r@.len() == if candidates(entries@, scores@).len() < 10 {
            candidates(entries@, scores@).len()
        } else {
            10
        },
        exists|all: Seq<FuzzyResult>|
            #![trigger fuzzy_views(all)]
            sorted_by_key(all) && fuzzy_views(all).to_multiset()
                == candidates(entries@, scores@).to_multiset() && r@ == all.take(r@.len() as int),
{
    let mut found: Vec<FuzzyResult> = Vec::new();
    let mut i: usize = 0;
    while i < entries.len()
        invariant
            i <= entries@.len(),
            scores@.len() == entries@.len(),
            fuzzy_views(found@) == candidates(entries@.take(i as int), scores@),
        decreases entries@.len() - i,
    {
        assert(entries@.take(i + 1).drop_last() =~= entries@.take(i as int));
        assert(entries@.take(i + 1).last() == entries@[i as int]);
        let ghost before = found@;
        match scores[i] {
            Some(sc) => {
                let e = &entries[i];
                found.push(
                    FuzzyResult {
                        score: sc,
                        filename: e.filename.clone(),
                        repo: repo_or_unknown(&e.source_repo),
                        path: e.path.clone(),
                    },
                );
                assert(fuzzy_views(found@) =~= before.map_values(
                    |x: FuzzyResult| fuzzy_view(x),
                ).push(result_of(entries@[i as int], sc)));
            },
            None => {},
        }
        i = i + 1;
    }
    assert(entries@.take(i as int) =~= entries@);
    let ghost cands = found@;
    let mut sorted = sort_by_key(found);
    proof {
        lemma_map_multiset(cands, sorted@);
        assert(fuzzy_views(cands).len() == cands.len());
        assert(sorted@.to_multiset().len() == sorted@.len());
        assert(cands.to_multiset().len() == cands.len());
    }
    let ghost all = sorted@;
    if sorted.len() > FUZZY_LIMIT {
        sorted.truncate(FUZZY_LIMIT);
    }
    proof {
        assert(sorted@ =~= all.take(sorted@.len() as int));
        assert(sorted_by_key(sorted@)) by {
            assert forall|a: int, b: int| 0 <= a < b < sorted@.len() implies !key_before(
                #[trigger] sorted@[b].sort_key(),
                #[trigger] sorted@[a].sort_key(),
            ) by {
                assert(sorted@[a] == all[a] && sorted@[b] == all[b]);
            }
        }
    }
    sorted
}

/// Equal multisets stay equal under a map.
proof fn lemma_map_multiset(a: Seq<FuzzyResult>, b: Seq<FuzzyResult>)
    requires
        b.to_multiset() == a.to_multiset(),
    ensures
        fuzzy_views(b).to_multiset() == fuzzy_views(a).to_multiset(),
{
    lemma_multiset_map(b, a, |x: FuzzyResult| fuzzy_view(x));
}

/// The wordlists whose file name or stem equals `name`, ignoring ASCII case, in path order.
pub fn exact_lookup(index: &Index, name: &str) -> (r: Vec<WordlistEntry>)
    ensures
        r@ == entries_of(index.rows()).filter(|e: WordlistEntry| name_matches(e, name@)),
{
    get_by_name(index, name)
}

/// Fuzzy search over file names: every wordlist is scored by skim's matcher against `query`,
/// and the ten best matches are kept, by score then path.
pub fn fuzzy_search(index: &Index, query: &str) -> (r: Vec<FuzzyResult>)
    ensures
        exists|scores: Seq<Option<i64>>|
            #![trigger ranked_by(index.rows(), scores, r@)]
            scores.len() == index.rows().len() && (forall|i: int|
                0 <= i < scores.len() ==> #[trigger] scores[i] == skim_score(index.rows()[i].entry.filename@, query@))
                && ranked_by(index.rows(), scores, r@),
{
    let entries = get_all(index);
    let mut scores: Vec<Option<i64>> = Vec::new();
    let mut i: usize = 0;
    while i < entries.len()
        invariant
            i <= entries@.len(),
            entries@ == entries_of(index.rows()),
            scores@.len() == i,
            forall|j: int| 0 <= j < i ==> #[trigger] scores@[j] == skim_score(entries@[j].filename@, query@),
        decreases entries@.len() - i,
    {
        scores.push(skim_fuzzy_match(entries[i].filename.as_str(), query));
        i = i + 1;
    }
    let r = rank_fuzzy(&entries, &scores);
    assert(forall|j: int| 0 <= j < scores@.len() ==> #[trigger] scores@[j] == skim_score(
        index.rows()[j].entry.filename@,
        query@,
    )) by {
        assert forall|j: int| 0 <= j < scores@.len() implies #[trigger] scores@[j] == skim_score(
            index.rows()[j].entry.filename@,
            query@,
        ) by {
            assert(entries@[j] == entries_of(index.rows())[j]);
        }
    }
    assert(ranked_by(index.rows(), scores@, r@));
    r
}


/// Whether the best fuzzy result clearly wins: it scores at least `FUZZY_MIN_SCORE` and leads
/// the next one, if any, by at least `FUZZY_MIN_GAP`.
pub open spec fn clear_winner(results: Seq<FuzzyResult>) -> bool {
    &&& results.len() > 0
    &&& results[0].score >= FUZZY_MIN_SCORE
    &&& (results.len() == 1 || results[0].score - results[1].score >= FUZZY_MIN_GAP)
}

/// How a name given on the command line resolves.
#[derive(Clone, PartialEq, Eq, Debug)]
pub enum Resolution {
    /// The first exact match, and how many other exact matches there are.
    Exact { path: String, others: usize },
    /// A fuzzy match that clearly wins.
    Fuzzy { path: String, filename: String },
    /// Nothing matches well enough.
    NotFound,
}

/// Resolves a name: the first exact match wins; without one, a fuzzy match that clearly wins
/// stands in; otherwise the name is not found.
pub fn resolve_lookup(exact: &Vec<WordlistEntry>, fuzzy: &Vec<FuzzyResult>) -> (r: Resolution)
    ensures
        exact@.len() > 0 ==> (r matches Resolution::Exact { path, others } && path@ == exact@[0].path@
            && others == exact@.len() - 1),
        exact@.len() == 0 && clear_winner(fuzzy@) ==> (r matches Resolution::Fuzzy { path, filename }
            && path@ == fuzzy@[0].path@ && filename@ == fuzzy@[0].filename@),
        exact@.len() == 0 && !clear_winner(fuzzy@) ==> r is NotFound,
        resolves(exact@, fuzzy@, r),
{
    if exact.len() > 0 {
        return Resolution::Exact { path: exact[0].path.clone(), others: exact.len() - 1 };
    }
    if fuzzy.len() > 0 && fuzzy[0].score >= FUZZY_MIN_SCORE {
        let wins = if fuzzy.len() == 1 {
            true
        } else {
            (fuzzy[0].score as i128) - (fuzzy[1].score as i128) >= FUZZY_MIN_GAP as i128
        };
        if wins {
            return Resolution::Fuzzy {
                path: fuzzy[0].path.clone(),
                filename: fuzzy[0].filename.clone(),
            };
        }
    }
    Resolution::NotFound
}

/// The note printed to the error stream about a resolution, if any.
pub open spec fn note_text(r: Resolution) -> Option<Seq<char>> {
    match r {
        Resolution::Exact { path, others } => if others > 0 {
            Some("note: also matches "@ + crate::text::dec(others as nat) + " other wordlist(s); use `wl info <name>` to list them"@)
        } else {
            None
        },
        Resolution::Fuzzy { path, filename } => Some("note: fuzzy match: "@ + filename@),
        Resolution::NotFound => None,
    }
}

/// The note printed to the error stream about a resolution, if any.
pub fn resolution_note(r: &Resolution) -> (s: Option<String>)
    ensures
        match s {
            Some(t) => note_text(*r) == Some(t@),
            None => note_text(*r) is None,
        },
{
    match r {
        Resolution::Exact { path: _, others } => {
            if *others > 0 {
                let mut t = String::from_str("note: also matches ");
                crate::text::push_dec(&mut t, *others as u64);
                push_str(&mut t, " other wordlist(s); use `wl info <name>` to list them");
                Some(t)
            } else {
                None
            }
        },
        Resolution::Fuzzy { path: _, filename } => {
            let mut t = String::from_str("note: fuzzy match: ");
            push_str(&mut t, filename.as_str());
            Some(t)
        },
        Resolution::NotFound => None,
    }
}

/// What a fuzzy search over `rows` may return for `query` when the wordlist at `i` gets the
/// score `scores[i]`: the best ten of the scored wordlists, by score (highest first) then path.
pub open spec fn ranked_by(rows: Seq<IndexedWordlist>, scores: Seq<Option<i64>>, r: Seq<FuzzyResult>) -> bool {
    &&& sorted_by_key(r)
    &&& r.len() == (if candidates(entries_of(rows), scores).len() < 10 {
        candidates(entries_of(rows), scores).len()
    } else {
        10
    })
    &&& exists|all: Seq<FuzzyResult>|
        #![trigger fuzzy_views(all)]
        sorted_by_key(all) && fuzzy_views(all).to_multiset() == candidates(entries_of(rows), scores).to_multiset()
            && r == all.take(r.len() as int)
}

/// The score a tag-filtered fuzzy search gives a wordlist: skim's score of its file name,
/// when the wordlist passes the tag filter.
pub open spec fn tagged_score(
    rows: Seq<IndexedWordlist>,
    i: int,
    query: Seq<char>,
    tag: Option<Seq<char>>,
) -> Option<i64> {
    if tag_matches(entry_tags(rows, rows[i].entry), tag) {
        skim_score(rows[i].entry.filename@, query)
    } else {
        None
    }
}

/// Fuzzy search over file names among the wordlists that carry at least one of the tags of
/// a comma-separated list (all wordlists without a list): the ten best matches, by score then
/// path.
pub fn fuzzy_search_tagged(index: &Index, query: &str, tag: Option<&str>) -> (r: Vec<FuzzyResult>)
    ensures
        exists|scores: Seq<Option<i64>>|
            #![trigger ranked_by(index.rows(), scores, r@)]
            scores.len() == index.rows().len() && (forall|i: int|
                0 <= i < scores.len() ==> #[trigger] scores[i] == tagged_score(index.rows(), i, query@, opt_str(tag)))
                && ranked_by(index.rows(), scores, r@),
{
    let ghost rows = index.rows();
    let entries = get_all(index);
    let mut scores: Vec<Option<i64>> = Vec::new();
    let mut i: usize = 0;
    while i < entries.len()
        invariant
            i <= entries@.len(),
            rows == index.rows(),
            entries@ == entries_of(rows),
            scores@.len() == i,
            forall|j: int| 0 <= j < i ==> #[trigger] scores@[j] == tagged_score(rows, j, query@, opt_str(tag)),
        decreases entries@.len() - i,
    {
        let e = &entries[i];
        assert(*e == rows[i as int].entry);
        let tags = match e.id {
            Some(id) => get_tags_for_wordlist(index, id),
            None => {
                let v: Vec<String> = Vec::new();
                assert(views(v@) =~= Seq::<Seq<char>>::empty());
                v
            },
        };
        assert(views(tags@) == entry_tags(rows, *e));
        let sc = if tags_pass(&tags, tag) {
            skim_fuzzy_match(e.filename.as_str(), query)
        } else {
            None
        };
        scores.push(sc);
        i = i + 1;
    }
    let r = rank_fuzzy(&entries, &scores);
    assert(ranked_by(rows, scores@, r@));
    r
}

/// The wordlists that answer exactly to a name, in path order.
pub open spec fn exact_matches(rows: Seq<IndexedWordlist>, name: Seq<char>) -> Seq<WordlistEntry> {
    entries_of(rows).filter(|e: WordlistEntry| name_matches(e, name))
}

/// How a name resolves given its exact matches and, when there is none, the fuzzy results.
pub open spec fn resolves(exact: Seq<WordlistEntry>, fuzzy: Seq<FuzzyResult>, r: Resolution) -> bool {
    &&& exact.len() > 0 ==> (r matches Resolution::Exact { path, others } && path@ == exact[0].path@ && others
        == exact.len() - 1)
    &&& exact.len() == 0 && clear_winner(fuzzy) ==> (r matches Resolution::Fuzzy { path, filename } && path@
        == fuzzy[0].path@ && filename@ == fuzzy[0].filename@)
    &&& exact.len() == 0 && !clear_winner(fuzzy) ==> r is NotFound
}

/// A fuzzy match stands in for a name only when nothing matches exactly and the best fuzzy
/// result scores at least 50 and leads the next best result by at least 20 points; then it is
/// that best result. An exact match always wins, and is the first one.
pub proof fn law_fuzzy_stands_in_only_with_a_clear_lead(
    exact: Seq<WordlistEntry>,
    fuzzy: Seq<FuzzyResult>,
    r: Resolution,
)
    requires
        resolves(exact, fuzzy, r),
    ensures
        r is Fuzzy <==> (exact.len() == 0 && fuzzy.len() >= 1 && fuzzy[0].score >= 50 && (fuzzy.len() == 1
            || fuzzy[0].score - fuzzy[1].score >= 20)),
        r matches Resolution::Fuzzy { path, filename } ==> path@ == fuzzy[0].path@ && filename@ == fuzzy[0].filename@,
        r is Exact <==> exact.len() > 0,
        r matches Resolution::Exact { path, others } ==> path@ == exact[0].path@ && others + 1 == exact.len(),
{
}

/// How a name resolves in an index: by its first exact match (file name or stem, ignoring
/// ASCII case); without one, by the best result of a fuzzy search over file names when it
/// clearly wins; otherwise not at all.
pub open spec fn resolved_name(rows: Seq<IndexedWordlist>, name: Seq<char>, r: Resolution) -> bool {
    &&& exact_matches(rows, name).len() > 0 ==> resolves(exact_matches(rows, name), Seq::empty(), r)
    &&& exact_matches(rows, name).len() == 0 ==> exists|fz: Seq<FuzzyResult>|
        #![trigger resolves(exact_matches(rows, name), fz, r)]
        (exists|scores: Seq<Option<i64>>|
            #![trigger ranked_by(rows, scores, fz)]
            scores.len() == rows.len() && (forall|i: int|
                0 <= i < scores.len() ==> #[trigger] scores[i] == skim_score(rows[i].entry.filename@, name))
                && ranked_by(rows, scores, fz)) && resolves(exact_matches(rows, name), fz, r)
}

/// Resolves a name given on the command line: its first exact match wins; without one, a
/// fuzzy search over file names runs, and its best result stands in when it clearly wins;
/// otherwise the name is not found.
pub fn lookup(index: &Index, name: &str) -> (r: Resolution)
    ensures
        resolved_name(index.rows(), name@, r),
{
    let exact = exact_lookup(index, name);
    if exact.len() > 0 {
        let none: Vec<FuzzyResult> = Vec::new();
        return resolve_lookup(&exact, &none);
    }
    let fz = fuzzy_search(index, name);
    let r = resolve_lookup(&exact, &fz);
    assert(resolves(exact_matches(index.rows(), name@), fz@, r));
    r
}

} // verus!
