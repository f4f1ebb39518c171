//! Sorting by a key made of a number (larger first) and a string (smaller first).
use vstd::prelude::*;
use vstd::multiset::Multiset;
use crate::text::{lemma_seq_lt_irreflexive, lemma_seq_lt_transitive, seq_lt};

verus! {

broadcast use vstd::seq_lib::group_to_multiset_ensures;

/// Whether key `a` strictly comes before key `b`: a larger number first, then the
/// lexicographically smaller string.
pub open spec fn key_before(a: (int, Seq<char>), b: (int, Seq<char>)) -> bool {
    a.0 > b.0 || (a.0 == b.0 && seq_lt(a.1, b.1))
}

/// A value that is ordered by a `(number, string)` key.
pub trait SortKey {
    spec fn sort_key(&self) -> (int, Seq<char>);

    fn comes_before(&self, other: &Self) -> (r: bool)
        ensures
            r == key_before(self.sort_key(), other.sort_key()),
    ;
}

/// No element is strictly before one that precedes it.
pub open spec fn sorted_by_key<T: SortKey>(s: Seq<T>) -> bool {
    forall|i: int, j: int|
        0 <= i < j < s.len() ==> !key_before(#[trigger] s[j].sort_key(), #[trigger] s[i].sort_key())
}

/// `key_before` is transitive.
pub proof fn lemma_key_before_transitive(a: (int, Seq<char>), b: (int, Seq<char>), c: (int, Seq<char>))
    requires
        key_before(a, b),
        key_before(b, c),
    ensures
        key_before(a, c),
{
    if a.0 == b.0 && b.0 == c.0 {
        lemma_seq_lt_transitive(a.1, b.1, c.1);
    }
}

/// Sorts by key; the result holds the same elements.
pub fn sort_by_key<T: SortKey>(v: Vec<T>) -> (r: Vec<T>)
    ensures
        r@.to_multiset() == v@.to_multiset(),
        sorted_by_key(r@),
{
    let mut src = v;
    let mut out: Vec<T> = Vec::new();
    assert(out@.to_multiset().add(src@.to_multiset()) =~= v@.to_multiset());
    while src.len() > 0
        invariant
            sorted_by_key(out@),
            out@.to_multiset().add(src@.to_multiset()) == v@.to_multiset(),
        decreases src.len(),
    {
        let ghost before_src = src@;
        let x = src.pop().unwrap();
        assert(before_src == src@.push(x));
        let mut p: usize = 0;
        while p < out.len() && !x.comes_before(&out[p])
            invariant
                p <= out.len(),
                forall|k: int| 0 <= k < p ==> !key_before(x.sort_key(), #[trigger] out@[k].sort_key()),
            decreases out.len() - p,
        {
            p = p + 1;
        }
        let ghost old_out = out@;
        out.insert(p, x);
        assert(out@ == old_out.insert(p as int, x));
        assert forall|i: int, j: int| 0 <= i < j < out@.len() implies !key_before(
            #[trigger] out@[j].sort_key(),
            #[trigger] out@[i].sort_key(),
        ) by {
            if j < p {
                assert(out@[i] == old_out[i] && out@[j] == old_out[j]);
            } else if j == p {
                assert(out@[i] == old_out[i]);
            } else if i == p {
                assert(out@[j] == old_out[j - 1]);
                assert(key_before(x.sort_key(), old_out[p as int].sort_key()));
                if key_before(old_out[j - 1].sort_key(), x.sort_key()) {
                    lemma_key_before_transitive(
                        old_out[j - 1].sort_key(),
                        x.sort_key(),
                        old_out[p as int].sort_key(),
                    );
                    if j - 1 == p {
                        lemma_seq_lt_irreflexive(x.sort_key().1);
                        lemma_seq_lt_irreflexive(old_out[p as int].sort_key().1);
                    } else {
                        assert(!key_before(old_out[j - 1].sort_key(), old_out[p as int].sort_key()));
                    }
                }
            } else if i < p {
                assert(out@[i] == old_out[i] && out@[j] == old_out[j - 1]);
            } else {
                assert(out@[i] == old_out[i - 1] && out@[j] == old_out[j - 1]);
            }
        }
        assert(out@.to_multiset() == old_out.to_multiset().insert(x));
    }
    assert(src@.to_multiset() =~= Multiset::empty());
    assert(out@.to_multiset().add(Multiset::empty()) =~= out@.to_multiset());
    out
}


/// Sequences with the same elements still have the same elements after a map.
pub proof fn lemma_multiset_map<A, B>(a: Seq<A>, b: Seq<A>, f: spec_fn(A) -> B)
    requires
        a.to_multiset() == b.to_multiset(),
    ensures
        a.map_values(f).to_multiset() == b.map_values(f).to_multiset(),
    decreases a.len(),
{
    if a.len() == 0 {
        assert(a.to_multiset().len() == a.len());
        assert(b.to_multiset().len() == b.len());
        assert(b.len() == 0);
        assert(a.map_values(f) =~= Seq::<B>::empty());
        assert(b.map_values(f) =~= Seq::<B>::empty());
    } else {
        let x = a.last();
        let a1 = a.drop_last();
        assert(a =~= a1.push(x));
        assert(a.to_multiset().count(x) > 0);
        assert(b.to_multiset().count(x) > 0);
        assert(b.contains(x));
        let j = choose|j: int| 0 <= j < b.len() && b[j] == x;
        let b1 = b.remove(j);
        assert(b1.to_multiset() == b.to_multiset().remove(x));
        assert(a1.to_multiset() =~= a.to_multiset().remove(x));
        lemma_multiset_map(a1, b1, f);
        assert(a.map_values(f) =~= a1.map_values(f).push(f(x)));
        assert(b1.map_values(f) =~= b.map_values(f).remove(j));
        assert(b.map_values(f)[j] == f(x));
        assert(b1.map_values(f).to_multiset() == b.map_values(f).to_multiset().remove(f(x)));
        assert(b.map_values(f).to_multiset().count(f(x)) > 0) by {
            assert(b.map_values(f).contains(f(x)));
        }
        assert(b.map_values(f).to_multiset() =~= b1.map_values(f).to_multiset().insert(f(x)));
    }
}

} // verus!
