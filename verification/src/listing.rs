//! Filters for listing wordlists: by repository, by extension, and by any of several tags.
use vstd::prelude::*;
use crate::db::{entries_of, get_all, get_tags_for_wordlist, tags_of, Index, IndexedWordlist, WordlistEntry};
use crate::text::{
    ascii_lowercase, eq_ignore_ascii_case, lemma_filter_push, lemma_segments_append_plain, segments, split_on, str_eq, views,
};

verus! {

/// The items of a comma-separated list; empty items are left out.
pub open spec fn list_items(s: Seq<char>) -> Seq<Seq<char>> {
    segments(s, ',').filter(|p: Seq<char>| p.len() > 0)
}

/// Splits a comma-separated list, leaving out empty items.
pub fn split_list(s: &str) -> (r: Vec<String>)
    ensures
        views(r@) == list_items(s@),
{
    let ghost pred = |p: Seq<char>| p.len() > 0;
    let parts = split_on(s, ',');
    let mut out: Vec<String> = Vec::new();
    let mut i: usize = 0;
    while i < parts.len()
        invariant
            i <= parts@.len(),
            views(parts@) == segments(s@, ','),
            pred == (|p: Seq<char>| p.len() > 0),
            views(out@) == views(parts@).take(i as int).filter(pred),
        decreases parts@.len() - i,
    {
        let ghost before = views(out@);
        proof {
            lemma_filter_push(views(parts@).take(i as int), parts@[i as int]@, pred);
            assert(views(parts@).take(i + 1) =~= views(parts@).take(i as int).push(parts@[i as int]@));
        }
        if !parts[i].as_str().is_empty() {
            out.push(parts[i].clone());
            assert(views(out@) =~= before.push(parts@[i as int]@));
        }
        i = i + 1;
    }
    assert(views(parts@).take(i as int) =~= views(parts@));
    out
}

/// The view of an optional string slice.
pub open spec fn opt_str(o: Option<&str>) -> Option<Seq<char>> {
    match o {
        Some(s) => Some(s@),
        None => None,
    }
}

/// Whether an optional field passes a filter: without a filter it does; with one (a
/// comma-separated list), the field must be there and equal one of the listed values,
/// ignoring ASCII case.
pub open spec fn field_matches(field: Option<String>, filter: Option<Seq<char>>) -> bool {
    match filter {
        None => true,
        Some(f) => match field {
            Some(v) => equals_any(v@, list_items(f)),
            None => false,
        },
    }
}

/// Whether `v` equals one of `values`, ignoring ASCII case.
pub open spec fn equals_any(v: Seq<char>, values: Seq<Seq<char>>) -> bool {
    exists|k: int| 0 <= k < values.len() && ascii_lowercase(v) == ascii_lowercase(#[trigger] values[k])
}

/// Whether a wordlist with these tags passes a tag filter: without a filter it does; with
/// one, it must carry at least one of the listed tags.
pub open spec fn tag_matches(tags: Seq<Seq<char>>, filter: Option<Seq<char>>) -> bool {
    match filter {
        None => true,
        Some(f) => carries_any(tags, list_items(f)),
    }
}

/// Whether `tags` holds at least one of `wanted`.
pub open spec fn carries_any(tags: Seq<Seq<char>>, wanted: Seq<Seq<char>>) -> bool {
    exists|k: int| 0 <= k < wanted.len() && tags.contains(#[trigger] wanted[k])
}

/// A list of two items, neither holding a comma, is cut into those two items.
proof fn lemma_two_segments(a: Seq<char>, b: Seq<char>)
    requires
        !a.contains(','),
        !b.contains(','),
    ensures
        segments(a + seq![','] + b, ',') == seq![a, b],
{
    let e = Seq::<char>::empty();
    lemma_segments_append_plain(e, a, ',');
    assert(e + a =~= a);
    assert(segments(e, ',') =~= seq![e]);
    assert(segments(a, ',') =~= seq![a]);
    let ac = a + seq![','];
    assert(ac.drop_last() =~= a);
    assert(ac.last() == ',');
    assert(segments(ac, ',') =~= seq![a, e]);
    lemma_segments_append_plain(ac, b, ',');
    assert(a + seq![','] + b =~= ac + b);
    assert(e + b =~= b);
    assert(segments(ac + b, ',') =~= seq![a, b]);
}

/// The tag filter is an "or": a list of two tags passes exactly the wordlists that carry the
/// first or the second.
pub proof fn law_tag_list_is_an_or(tags: Seq<Seq<char>>, a: Seq<char>, b: Seq<char>)
    requires
        !a.contains(','),
        !b.contains(','),
        a.len() > 0,
        b.len() > 0,
    ensures
        tag_matches(tags, Some(a + seq![','] + b)) == (tag_matches(tags, Some(a)) || tag_matches(tags, Some(b))),
{
    let pred = |p: Seq<char>| p.len() > 0;
    lemma_two_segments(a, b);
    let e = Seq::<char>::empty();
    lemma_segments_append_plain(e, a, ',');
    lemma_segments_append_plain(e, b, ',');
    assert(e + a =~= a);
    assert(e + b =~= b);
    assert(segments(e, ',') =~= seq![e]);
    assert(segments(a, ',') =~= seq![a]);
    assert(segments(b, ',') =~= seq![b]);
    reveal_with_fuel(Seq::filter, 3);
    assert(seq![a, b].drop_last() =~= seq![a]);
    assert(seq![a].drop_last() =~= Seq::<Seq<char>>::empty());
    assert(seq![b].drop_last() =~= Seq::<Seq<char>>::empty());
    assert(list_items(a) =~= seq![a]);
    assert(list_items(b) =~= seq![b]);
    assert(list_items(a + seq![','] + b) =~= seq![a, b]);
    if tags.contains(a) {
        assert(seq![a, b][0] == a);
        assert(seq![a][0] == a);
    }
    if tags.contains(b) {
        assert(seq![a, b][1] == b);
        assert(seq![b][0] == b);
    }
}

/// The tags of an entry of the index.
pub open spec fn entry_tags(rows: Seq<IndexedWordlist>, e: WordlistEntry) -> Seq<Seq<char>> {
    match e.id {
        Some(id) => tags_of(rows, id),
        None => Seq::empty(),
    }
}

/// Whether an entry of the index passes the repository, extension and tag filters.
pub open spec fn listed(
    rows: Seq<IndexedWordlist>,
    e: WordlistEntry,
    repo: Option<Seq<char>>,
    ext: Option<Seq<char>>,
    tag: Option<Seq<char>>,
) -> bool {
    field_matches(e.source_repo, repo) && field_matches(e.extension, ext) && tag_matches(entry_tags(rows, e), tag)
}

/// The filters of a listing narrow it independently: every wordlist listed passes the
/// repository filter, the extension filter and the tag filter, each on its own; and every
/// wordlist of the index that passes all three is listed.
pub proof fn law_filters_narrow_independently(
    rows: Seq<IndexedWordlist>,
    repo: Option<Seq<char>>,
    ext: Option<Seq<char>>,
    tag: Option<Seq<char>>,
)
    ensures
        ({
            let r = entries_of(rows).filter(|e: WordlistEntry| listed(rows, e, repo, ext, tag));
            &&& forall|i: int| 0 <= i < r.len() ==> field_matches((#[trigger] r[i]).source_repo, repo)
            &&& forall|i: int| 0 <= i < r.len() ==> field_matches((#[trigger] r[i]).extension, ext)
            &&& forall|i: int| 0 <= i < r.len() ==> tag_matches(entry_tags(rows, #[trigger] r[i]), tag)
            &&& forall|j: int|
                0 <= j < rows.len() && field_matches((#[trigger] rows[j]).entry.source_repo, repo) && field_matches(
                    rows[j].entry.extension,
                    ext,
                ) && tag_matches(entry_tags(rows, rows[j].entry), tag) ==> r.contains(rows[j].entry)
        }),
{
    let pred = |e: WordlistEntry| listed(rows, e, repo, ext, tag);
    let all = entries_of(rows);
    let r = all.filter(pred);
    assert forall|i: int| 0 <= i < r.len() implies field_matches((#[trigger] r[i]).source_repo, repo) && field_matches(
        r[i].extension,
        ext,
    ) && tag_matches(entry_tags(rows, r[i]), tag) by {
        all.lemma_filter_pred(pred, i);
    }
    assert forall|j: int|
        0 <= j < rows.len() && field_matches((#[trigger] rows[j]).entry.source_repo, repo) && field_matches(
            rows[j].entry.extension,
            ext,
        ) && tag_matches(entry_tags(rows, rows[j].entry), tag) implies r.contains(rows[j].entry) by {
        assert(all[j] == rows[j].entry);
        all.lemma_filter_contains(pred, j);
    }
}

/// Whether an optional field passes a filter.
fn field_passes(field: &Option<String>, filter: Option<&str>) -> (r: bool)
    ensures
        r == field_matches(*field, opt_str(filter)),
{
    match filter {
        None => true,
        Some(f) => match field {
            Some(v) => {
                let wanted = split_list(f);
                let mut k: usize = 0;
                while k < wanted.len()
                    invariant
                        k <= wanted@.len(),
                        opt_str(filter) == Some(f@),
                        *field == Some(*v),
                        views(wanted@) == list_items(f@),
                        forall|j: int| 0 <= j < k ==> ascii_lowercase(v@) != ascii_lowercase(#[trigger] list_items(f@)[j]),
                    decreases wanted@.len() - k,
                {
                    assert(views(wanted@)[k as int] == wanted@[k as int]@);
                    if eq_ignore_ascii_case(v.as_str(), wanted[k].as_str()) {
                        assert(views(wanted@).len() == wanted@.len());
                        assert(equals_any(v@, list_items(f@)));
                        return true;
                    }
                    k = k + 1;
                }
                assert(views(wanted@).len() == wanted@.len());
                false
            },
            None => false,
        },
    }
}

/// Whether `tags` holds `t`.
fn holds_tag(tags: &Vec<String>, t: &str) -> (r: bool)
    ensures
        r == views(tags@).contains(t@),
{
    let mut i: usize = 0;
    while i < tags.len()
        invariant
            i <= tags@.len(),
            forall|k: int| 0 <= k < i ==> tags@[k]@ != t@,
        decreases tags@.len() - i,
    {
        if str_eq(tags[i].as_str(), t) {
            assert(views(tags@)[i as int] == t@);
            return true;
        }
        i = i + 1;
    }
    assert forall|k: int| 0 <= k < views(tags@).len() implies views(tags@)[k] != t@ by {
        assert(views(tags@)[k] == tags@[k]@);
    }
    false
}

/// Whether a wordlist with these tags passes a tag filter.
pub(crate) fn tags_pass(tags: &Vec<String>, filter: Option<&str>) -> (r: bool)
    ensures
        r == tag_matches(views(tags@), opt_str(filter)),
{
    match filter {
        None => true,
        Some(f) => {
            let wanted = split_list(f);
            let mut k: usize = 0;
            while k < wanted.len()
                invariant
                    k <= wanted@.len(),
                    opt_str(filter) == Some(f@),
                    views(wanted@) == list_items(f@),
                    forall|j: int| 0 <= j < k ==> !views(tags@).contains(#[trigger] list_items(f@)[j]),
                decreases wanted@.len() - k,
            {
                assert(views(wanted@)[k as int] == wanted@[k as int]@);
                if holds_tag(tags, wanted[k].as_str()) {
                    assert(views(wanted@).len() == wanted@.len());
                    assert(0 <= k < list_items(f@).len() && views(tags@).contains(list_items(f@)[k as int]));
                    return true;
                }
                k = k + 1;
            }
            false
        },
    }
}

/// The wordlists that pass the filters, in path order. Each filter is a comma-separated list
/// whose values are ORed: the repository and the extension must equal one of theirs (ignoring
/// ASCII case), and a wordlist must carry at least one of the listed tags.
pub fn filter_entries(index: &Index, repo: Option<&str>, ext: Option<&str>, tag: Option<&str>) -> (r: Vec<
    WordlistEntry,
>)
    ensures
        r@ == entries_of(index.rows()).filter(
            |e: WordlistEntry| listed(index.rows(), e, opt_str(repo), opt_str(ext), opt_str(tag)),
        ),
{
    let ghost rows = index.rows();
    let ghost pred = |e: WordlistEntry| listed(rows, e, opt_str(repo), opt_str(ext), opt_str(tag));
    let all = get_all(index);
    let mut out: Vec<WordlistEntry> = Vec::new();
    let mut i: usize = 0;
    while i < all.len()
        invariant
            i <= all@.len(),
            rows == index.rows(),
            all@ == entries_of(rows),
            pred == (|e: WordlistEntry| listed(rows, e, opt_str(repo), opt_str(ext), opt_str(tag))),
            out@ == all@.take(i as int).filter(pred),
        decreases all@.len() - i,
    {
        let e = &all[i];
        proof {
            lemma_filter_push(all@.take(i as int), *e, pred);
            assert(all@.take(i + 1) =~= all@.take(i as int).push(*e));
        }
        let tags = match e.id {
            Some(id) => get_tags_for_wordlist(index, id),
            None => {
                let v: Vec<String> = Vec::new();
                assert(views(v@) =~= Seq::<Seq<char>>::empty());
                v
            },
        };
        assert(views(tags@) == entry_tags(rows, *e));
        if field_passes(&e.source_repo, repo) && field_passes(&e.extension, ext) && tags_pass(&tags, tag) {
            out.push(e.copy());
        }
        i = i + 1;
    }
    assert(all@.take(i as int) =~= all@);
    out
}

} // verus!
