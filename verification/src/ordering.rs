//! What the dictionary order and the candidate order guarantee.

use vstd::prelude::*;

use crate::converter::{
    CandidateView, DictionaryEntry, LITERAL_COST, UNKNOWN_COST, best_conversion, candidate_pool, chars_before,
    candidate_le, candidate_order, entry_le, entry_order, exact_candidates, has_surface,
};
use crate::lattice::{
    entry_key, entry_keys, is_edge, is_segmentation, law_conversion_exists, law_conversion_is_cheapest,
    law_conversion_is_segmentation, lemma_best_conversion_keys, no_negative_empty_entry,
};
use crate::order::{in_order, lemma_sort_in_order, sort_in_order, total_preorder};

verus! {

proof fn lemma_chars_before_irreflexive(a: Seq<char>)
    ensures
        !chars_before(a, a),
    decreases a.len(),
{
    if a.len() > 0 {
        lemma_chars_before_irreflexive(a.drop_first());
    }
}

proof fn lemma_chars_before_asymmetric(a: Seq<char>, b: Seq<char>)
    ensures
        chars_before(a, b) ==> !chars_before(b, a),
    decreases a.len(),
{
    if a.len() > 0 && b.len() > 0 && a[0] == b[0] {
        lemma_chars_before_asymmetric(a.drop_first(), b.drop_first());
    }
}

proof fn lemma_chars_before_total(a: Seq<char>, b: Seq<char>)
    ensures
        a != b ==> chars_before(a, b) || chars_before(b, a),
    decreases a.len(),
{
    if a.len() > 0 && b.len() > 0 && a[0] == b[0] {
        lemma_chars_before_total(a.drop_first(), b.drop_first());
        if a.drop_first() == b.drop_first() {
            assert(a =~= seq![a[0]] + a.drop_first());
            assert(b =~= seq![b[0]] + b.drop_first());
        }
    } else if a.len() == 0 && b.len() == 0 {
        assert(a =~= b);
    }
}

proof fn lemma_chars_before_transitive(a: Seq<char>, b: Seq<char>, c: Seq<char>)
    ensures
        chars_before(a, b) && chars_before(b, c) ==> chars_before(a, c),
    decreases a.len(),
{
    if a.len() > 0 && b.len() > 0 && c.len() > 0 {
        lemma_chars_before_transitive(a.drop_first(), b.drop_first(), c.drop_first());
    }
}

proof fn lemma_entry_order_total_preorder()
    ensures
        total_preorder(entry_order()),
{
    assert forall|a: DictionaryEntry, b: DictionaryEntry|
        #[trigger] (entry_order())(a, b) || #[trigger] (entry_order())(b, a) by {
        lemma_chars_before_total(a.reading@, b.reading@);
        lemma_chars_before_total(a.surface@, b.surface@);
        lemma_chars_before_asymmetric(a.surface@, b.surface@);
    }
    assert forall|a: DictionaryEntry, b: DictionaryEntry, c: DictionaryEntry|
        #[trigger] (entry_order())(a, b) && #[trigger] (entry_order())(b, c) implies (entry_order())(a, c) by {
        lemma_chars_before_transitive(a.reading@, b.reading@, c.reading@);
        lemma_chars_before_irreflexive(a.reading@);
        lemma_chars_before_asymmetric(a.reading@, b.reading@);
        lemma_chars_before_asymmetric(b.reading@, c.reading@);
        lemma_chars_before_asymmetric(a.reading@, c.reading@);
        lemma_chars_before_transitive(c.surface@, b.surface@, a.surface@);
        lemma_chars_before_total(a.surface@, b.surface@);
        lemma_chars_before_total(b.surface@, c.surface@);
        lemma_chars_before_total(a.surface@, c.surface@);
        if a.reading@ == b.reading@ && b.reading@ == c.reading@ && a.word_cost == b.word_cost
            && b.word_cost == c.word_cost {
            assert(entry_le(a, b));
            assert(entry_le(b, c));
            assert(!chars_before(b.surface@, a.surface@));
            assert(!chars_before(c.surface@, b.surface@));
            if chars_before(c.surface@, a.surface@) {
                if a.surface@ == b.surface@ {
                    assert(false);
                } else {
                    assert(chars_before(a.surface@, b.surface@));
                    lemma_chars_before_transitive(c.surface@, a.surface@, b.surface@);
                    assert(false);
                }
            }
        }
    }
}

/// A dictionary keeps exactly the entries it was built from, each as often,
/// in dictionary order: by reading (code point order), then cost, then
/// surface.
pub proof fn law_dictionary_order(entries: Seq<DictionaryEntry>)
    ensures
        in_order(sort_in_order(entries, entry_order()), entry_order()),
        sort_in_order(entries, entry_order()).to_multiset() == entries.to_multiset(),
{
    lemma_entry_order_total_preorder();
    lemma_sort_in_order(entries, entry_order());
}

/// Candidates whose surface is not `r` come cheapest first, and the
/// candidate that is `r` itself comes after all of them.
pub open spec fn unconverted_last(c: Seq<CandidateView>, r: Seq<char>) -> bool {
    forall|i: int, j: int|
        0 <= i < j < c.len() ==> (#[trigger] c[i].0 == r ==> #[trigger] c[j].0 == r) && (c[i].0 != r
            && c[j].0 != r ==> c[i].1 <= c[j].1)
}

proof fn lemma_candidate_order_total_preorder(r: Seq<char>)
    ensures
        total_preorder(candidate_order(r)),
{
}

/// The candidates of a reading are exactly the candidate pool, each as
/// often; the converted ones come first, cheapest first, and the reading left
/// unconverted comes after every converted candidate.
pub proof fn law_candidates_in_order(entries: Seq<DictionaryEntry>, reading: Seq<char>)
    ensures
        in_order(
            sort_in_order(candidate_pool(entries, reading), candidate_order(reading)),
            candidate_order(reading),
        ),
        sort_in_order(candidate_pool(entries, reading), candidate_order(reading)).to_multiset()
            == candidate_pool(entries, reading).to_multiset(),
        unconverted_last(
            sort_in_order(candidate_pool(entries, reading), candidate_order(reading)),
            reading,
        ),
{
    let c = sort_in_order(candidate_pool(entries, reading), candidate_order(reading));
    lemma_candidate_order_total_preorder(reading);
    lemma_sort_in_order(candidate_pool(entries, reading), candidate_order(reading));
    assert forall|i: int, j: int| 0 <= i < j < c.len() implies (#[trigger] c[i].0 == reading
        ==> #[trigger] c[j].0 == reading) && (c[i].0 != reading && c[j].0 != reading ==> c[i].1 <= c[j].1) by {
        assert((candidate_order(reading))(c[i], c[j]));
        assert(candidate_le(reading, c[i], c[j]));
    }
}

proof fn lemma_exact_candidates_contain(entries: Seq<DictionaryEntry>, reading: Seq<char>, j: int, i: int)
    requires
        0 <= i < j <= entries.len(),
        entries[i].reading@ == reading,
    ensures
        exact_candidates(entries, reading, j).contains((entries[i].surface@, entries[i].word_cost)),
    decreases j,
{
    let x = (entries[i].surface@, entries[i].word_cost);
    if i < j - 1 {
        lemma_exact_candidates_contain(entries, reading, j - 1, i);
        let before = exact_candidates(entries, reading, j - 1);
        let k = choose|k: int| 0 <= k < before.len() && before[k] == x;
        if entries[j - 1].reading@ == reading {
            assert(before.push((entries[j - 1].surface@, entries[j - 1].word_cost))[k] == x);
        }
    } else {
        let before = exact_candidates(entries, reading, j - 1);
        assert(before.push(x)[before.len() as int] == x);
    }
}

/// Every entry read exactly as `reading` is a candidate with its own surface
/// and cost; the best conversion's surface is among the candidates' surfaces;
/// and so is the reading itself, left unconverted.
pub proof fn law_candidates_offer(entries: Seq<DictionaryEntry>, reading: Seq<char>)
    ensures
        forall|i: int|
            0 <= i < entries.len() && (#[trigger] entries[i]).reading@ == reading ==> sort_in_order(
                candidate_pool(entries, reading),
                candidate_order(reading),
            ).contains((entries[i].surface@, entries[i].word_cost)),
        best_conversion(entries, reading) matches Some(c) ==> has_surface(
            sort_in_order(candidate_pool(entries, reading), candidate_order(reading)),
            c.0,
        ),
        has_surface(sort_in_order(candidate_pool(entries, reading), candidate_order(reading)), reading),
{
    broadcast use vstd::seq_lib::group_to_multiset_ensures;

    let pool = candidate_pool(entries, reading);
    let sorted = sort_in_order(pool, candidate_order(reading));
    law_candidates_in_order(entries, reading);
    let exact = exact_candidates(entries, reading, entries.len() as int);
    let with_best = match best_conversion(entries, reading) {
        Some(c) => if has_surface(exact, c.0) {
            exact
        } else {
            exact.push((c.0, c.2))
        },
        None => exact,
    };
    // whatever `with_best` holds, the pool holds
    assert forall|x: CandidateView| with_best.contains(x) implies pool.contains(x) by {
        if !has_surface(with_best, reading) {
            let k = choose|k: int| 0 <= k < with_best.len() && with_best[k] == x;
            assert(with_best.push((reading, LITERAL_COST))[k] == x);
        }
    }
    assert forall|x: CandidateView| exact.contains(x) implies with_best.contains(x) by {
        let k = choose|k: int| 0 <= k < exact.len() && exact[k] == x;
        match best_conversion(entries, reading) {
            Some(c) => if !has_surface(exact, c.0) {
                assert(exact.push((c.0, c.2))[k] == x);
            },
            None => {},
        }
    }
    // a surface in the pool is a surface among the candidates
    assert forall|s: Seq<char>| has_surface(pool, s) implies has_surface(sorted, s) by {
        let k = choose|k: int| 0 <= k < pool.len() && (#[trigger] pool[k]).0 == s;
        assert(pool.contains(pool[k]));
        assert(sorted.to_multiset().count(pool[k]) > 0);
        assert(sorted.contains(pool[k]));
        let m = choose|m: int| 0 <= m < sorted.len() && sorted[m] == pool[k];
        assert(sorted[m].0 == s);
    }
    assert forall|i: int|
        0 <= i < entries.len() && (#[trigger] entries[i]).reading@ == reading implies sorted.contains(
            (entries[i].surface@, entries[i].word_cost),
        ) by {
        lemma_exact_candidates_contain(entries, reading, entries.len() as int, i);
        let x = (entries[i].surface@, entries[i].word_cost);
        assert(pool.contains(x));
        assert(pool.to_multiset().count(x) > 0);
    }
    // the reading itself
    if has_surface(with_best, reading) {
        let k = choose|k: int| 0 <= k < with_best.len() && (#[trigger] with_best[k]).0 == reading;
        assert(with_best.contains(with_best[k]));
        assert(pool.contains(with_best[k]));
        let m = choose|m: int| 0 <= m < pool.len() && pool[m] == with_best[k];
        assert(pool[m].0 == reading);
    } else {
        assert(pool[with_best.len() as int].0 == reading);
    }
    // the best conversion
    match best_conversion(entries, reading) {
        Some(c) => {
            if has_surface(exact, c.0) {
                let k = choose|k: int| 0 <= k < exact.len() && (#[trigger] exact[k]).0 == c.0;
                assert(exact.contains(exact[k]));
                assert(pool.contains(exact[k]));
                let m = choose|m: int| 0 <= m < pool.len() && pool[m] == exact[k];
                assert(pool[m].0 == c.0);
            } else {
                assert(with_best[exact.len() as int].0 == c.0);
                assert(with_best.contains(with_best[exact.len() as int]));
                assert(pool.contains(with_best[exact.len() as int]));
                let m = choose|m: int| 0 <= m < pool.len() && pool[m] == with_best[exact.len() as int];
                assert(pool[m].0 == c.0);
            }
        },
        None => {},
    }
}


/// Mapping two sequences with the same elements gives sequences with the
/// same elements.
proof fn lemma_map_multiset<A, B>(s1: Seq<A>, s2: Seq<A>, f: spec_fn(A) -> B)
    requires
        s1.to_multiset() == s2.to_multiset(),
    ensures
        s1.map_values(f).to_multiset() == s2.map_values(f).to_multiset(),
    decreases s1.len(),
{
    broadcast use vstd::seq_lib::group_to_multiset_ensures;

    s1.to_multiset_ensures();
    s2.to_multiset_ensures();
    if s1.len() == 0 {
        assert(s2.len() == 0);
        assert(s1.map_values(f) =~= s2.map_values(f));
    } else {
        let x = s1.last();
        let t1 = s1.drop_last();
        assert(s1 =~= t1.push(x));
        assert(s1.to_multiset().count(x) > 0);
        assert(s2.contains(x));
        let i = choose|i: int| 0 <= i < s2.len() && s2[i] == x;
        let t2 = s2.remove(i);
        assert(t1.to_multiset() =~= s1.to_multiset().remove(x));
        assert(t2.to_multiset() =~= s2.to_multiset().remove(x));
        lemma_map_multiset(t1, t2, f);
        let m1 = s1.map_values(f);
        let m2 = s2.map_values(f);
        assert(m1 =~= t1.map_values(f).push(f(x)));
        assert(t2.map_values(f) =~= m2.remove(i));
        assert(m2[i] == f(x));
        assert(m2.to_multiset().count(f(x)) > 0);
        assert(m2.to_multiset() =~= m2.remove(i).to_multiset().insert(f(x)));
    }
}

/// Two sequences in order by an antisymmetric total preorder that hold the
/// same elements are equal.
proof fn lemma_in_order_unique<A>(k1: Seq<A>, k2: Seq<A>, le: spec_fn(A, A) -> bool)
    requires
        total_preorder(le),
        forall|a: A, b: A| #[trigger] le(a, b) && le(b, a) ==> a == b,
        in_order(k1, le),
        in_order(k2, le),
        k1.to_multiset() == k2.to_multiset(),
    ensures
        k1 == k2,
    decreases k1.len(),
{
    broadcast use vstd::seq_lib::group_to_multiset_ensures;

    k1.to_multiset_ensures();
    k2.to_multiset_ensures();
    if k1.len() == 0 {
        assert(k2.len() == 0);
        assert(k1 =~= k2);
    } else {
        assert(k2.len() == k1.len());
        assert(k1.to_multiset().count(k1[0]) > 0);
        assert(k2.contains(k1[0]));
        let j = choose|j: int| 0 <= j < k2.len() && k2[j] == k1[0];
        if j > 0 {
            assert(le(k2[0], k2[j]));
        }
        assert(k2.to_multiset().count(k2[0]) > 0);
        assert(k1.contains(k2[0]));
        let i = choose|i: int| 0 <= i < k1.len() && k1[i] == k2[0];
        if i > 0 {
            assert(le(k1[0], k1[i]));
        }
        assert(le(k1[0], k2[0]) && le(k2[0], k1[0]));
        assert(k1[0] == k2[0]);
        let r1 = k1.drop_first();
        let r2 = k2.drop_first();
        assert(r1 =~= k1.remove(0));
        assert(r2 =~= k2.remove(0));
        assert forall|a: int, b: int| 0 <= a < b < r1.len() implies #[trigger] le(r1[a], r1[b]) by {
            assert(le(k1[a + 1], k1[b + 1]));
        }
        assert forall|a: int, b: int| 0 <= a < b < r2.len() implies #[trigger] le(r2[a], r2[b]) by {
            assert(le(k2[a + 1], k2[b + 1]));
        }
        lemma_in_order_unique(r1, r2, le);
        assert(k1 =~= k2) by {
            assert forall|t: int| 0 <= t < k1.len() implies k1[t] == k2[t] by {
                if t > 0 {
                    assert(k1[t] == r1[t - 1]);
                    assert(k2[t] == r2[t - 1]);
                }
            }
        }
    }
}

/// Dictionary order on what the search reads of an entry.
pub open spec fn key_le(a: (Seq<char>, i32, Seq<char>), b: (Seq<char>, i32, Seq<char>)) -> bool {
    ||| chars_before(a.0, b.0)
    ||| a.0 == b.0 && a.1 < b.1
    ||| a.0 == b.0 && a.1 == b.1 && !chars_before(b.2, a.2)
}

pub open spec fn key_order() -> spec_fn((Seq<char>, i32, Seq<char>), (Seq<char>, i32, Seq<char>)) -> bool {
    |a: (Seq<char>, i32, Seq<char>), b: (Seq<char>, i32, Seq<char>)| key_le(a, b)
}

proof fn lemma_key_order()
    ensures
        total_preorder(key_order()),
        forall|a: (Seq<char>, i32, Seq<char>), b: (Seq<char>, i32, Seq<char>)|
            #[trigger] (key_order())(a, b) && (key_order())(b, a) ==> a == b,
{
    assert forall|a: (Seq<char>, i32, Seq<char>), b: (Seq<char>, i32, Seq<char>)|
        #[trigger] (key_order())(a, b) || #[trigger] (key_order())(b, a) by {
        lemma_chars_before_total(a.0, b.0);
        lemma_chars_before_total(a.2, b.2);
        lemma_chars_before_asymmetric(a.2, b.2);
    }
    assert forall|a: (Seq<char>, i32, Seq<char>), b: (Seq<char>, i32, Seq<char>), c: (Seq<char>, i32, Seq<char>)|
        #[trigger] (key_order())(a, b) && #[trigger] (key_order())(b, c) implies (key_order())(a, c) by {
        lemma_chars_before_transitive(a.0, b.0, c.0);
        lemma_chars_before_irreflexive(a.0);
        lemma_chars_before_asymmetric(a.0, b.0);
        lemma_chars_before_asymmetric(b.0, c.0);
        lemma_chars_before_asymmetric(a.0, c.0);
        lemma_chars_before_total(a.2, b.2);
        lemma_chars_before_total(b.2, c.2);
        lemma_chars_before_total(a.2, c.2);
        if a.0 == b.0 && b.0 == c.0 && a.1 == b.1 && b.1 == c.1 {
            if chars_before(c.2, a.2) {
                if a.2 == b.2 {
                    assert(false);
                } else {
                    assert(chars_before(a.2, b.2));
                    lemma_chars_before_transitive(c.2, a.2, b.2);
                    assert(false);
                }
            }
        }
    }
    assert forall|a: (Seq<char>, i32, Seq<char>), b: (Seq<char>, i32, Seq<char>)|
        #[trigger] (key_order())(a, b) && (key_order())(b, a) implies a == b by {
        lemma_chars_before_irreflexive(a.0);
        lemma_chars_before_asymmetric(a.0, b.0);
        lemma_chars_before_total(a.2, b.2);
    }
}

proof fn lemma_exact_candidates_keys(
    e1: Seq<DictionaryEntry>,
    e2: Seq<DictionaryEntry>,
    reading: Seq<char>,
    j: int,
)
    requires
        entry_keys(e1) == entry_keys(e2),
        0 <= j <= e1.len(),
    ensures
        exact_candidates(e1, reading, j) == exact_candidates(e2, reading, j),
    decreases j,
{
    if j > 0 {
        lemma_exact_candidates_keys(e1, e2, reading, j - 1);
        assert(entry_keys(e1).len() == e1.len());
        assert(entry_keys(e2).len() == e2.len());
        assert(entry_keys(e1)[j - 1] == entry_key(e1[j - 1]));
        assert(entry_keys(e2)[j - 1] == entry_key(e2[j - 1]));
    }
}

/// The order in which entries are given never changes a result: built
/// from the same entries, each as often, two dictionaries read the same
/// (reading, cost, surface) in the same order, and so give the same
/// conversion and the same candidates for every reading.
pub proof fn law_input_order_irrelevant(v1: Seq<DictionaryEntry>, v2: Seq<DictionaryEntry>, reading: Seq<char>)
    requires
        v1.to_multiset() == v2.to_multiset(),
        v1.len() <= usize::MAX,
        reading.len() <= usize::MAX,
    ensures
        entry_keys(sort_in_order(v1, entry_order())) == entry_keys(sort_in_order(v2, entry_order())),
        best_conversion(sort_in_order(v1, entry_order()), reading) == best_conversion(
            sort_in_order(v2, entry_order()),
            reading,
        ),
        sort_in_order(candidate_pool(sort_in_order(v1, entry_order()), reading), candidate_order(reading))
            == sort_in_order(
            candidate_pool(sort_in_order(v2, entry_order()), reading),
            candidate_order(reading),
        ),
{
    let s1 = sort_in_order(v1, entry_order());
    let s2 = sort_in_order(v2, entry_order());
    lemma_entry_order_total_preorder();
    lemma_sort_in_order(v1, entry_order());
    lemma_sort_in_order(v2, entry_order());
    let key = |e: DictionaryEntry| entry_key(e);
    lemma_map_multiset(s1, s2, key);
    assert(entry_keys(s1) == s1.map_values(key));
    assert(entry_keys(s2) == s2.map_values(key));
    lemma_key_order();
    let k1 = entry_keys(s1);
    let k2 = entry_keys(s2);
    assert(in_order(k1, key_order())) by {
        assert forall|i: int, j: int| 0 <= i < j < k1.len() implies #[trigger] (key_order())(k1[i], k1[j]) by {
            assert((entry_order())(s1[i], s1[j]));
        }
    }
    assert(in_order(k2, key_order())) by {
        assert forall|i: int, j: int| 0 <= i < j < k2.len() implies #[trigger] (key_order())(k2[i], k2[j]) by {
            assert((entry_order())(s2[i], s2[j]));
        }
    }
    lemma_in_order_unique(k1, k2, key_order());
    lemma_best_conversion_keys(s1, s2, reading);
    lemma_exact_candidates_keys(s1, s2, reading, s1.len() as int);
    assert(s2.len() == s1.len());
}


/// Adding entries to a dictionary never makes the best conversion of a
/// reading dearer: whatever reading the smaller dictionary converts, the
/// larger one converts too, at no higher cost. This needs that no added or
/// kept entry with an empty reading has a negative cost; such an entry can
/// block every path.
pub proof fn law_more_entries_never_dearer(v: Seq<DictionaryEntry>, w: Seq<DictionaryEntry>, reading: Seq<char>)
    requires
        no_negative_empty_entry(v + w),
        v.len() + w.len() <= usize::MAX,
        reading.len() <= usize::MAX,
    ensures
        best_conversion(sort_in_order(v, entry_order()), reading) matches Some(c) ==> (best_conversion(
            sort_in_order(v + w, entry_order()),
            reading,
        ) matches Some(d) && d.2 <= c.2),
{
    broadcast use vstd::seq_lib::group_to_multiset_ensures;

    let small = sort_in_order(v, entry_order());
    let large = sort_in_order(v + w, entry_order());
    lemma_entry_order_total_preorder();
    lemma_sort_in_order(v, entry_order());
    lemma_sort_in_order(v + w, entry_order());
    vstd::seq_lib::lemma_multiset_commutative(v, w);
    if best_conversion(small, reading) is Some {
        let c = best_conversion(small, reading)->0;
        law_conversion_is_segmentation(small, reading);
        let segs = c.1;
        assert forall|i: int| 0 <= i < segs.len() implies is_edge(large, #[trigger] segs[i]) by {
            assert(is_edge(small, segs[i]));
            if !(segs[i].0.len() == 1 && segs[i].1 == segs[i].0 && segs[i].2 == UNKNOWN_COST) {
                let j = choose|j: int|
                    0 <= j < small.len() && #[trigger] small[j].reading@ == segs[i].0 && segs[i].0.len() > 0
                        && small[j].surface@ == segs[i].1 && small[j].word_cost == segs[i].2;
                assert(small.contains(small[j]));
                assert(small.to_multiset().count(small[j]) > 0);
                assert(large.to_multiset().count(small[j]) > 0);
                assert(large.contains(small[j]));
                let k = choose|k: int| 0 <= k < large.len() && large[k] == small[j];
                assert(large[k].reading@ == segs[i].0);
            }
        }
        assert(is_segmentation(large, reading, segs));
        assert(no_negative_empty_entry(large)) by {
            assert forall|i: int| 0 <= i < large.len() && (#[trigger] large[i]).reading@.len() == 0 implies large[i].word_cost
                >= 0 by {
                assert(large.contains(large[i]));
                assert((v + w).to_multiset().count(large[i]) > 0);
                assert((v + w).contains(large[i]));
                let k = choose|k: int| 0 <= k < (v + w).len() && (v + w)[k] == large[i];
                assert(((v + w)[k]).reading@.len() == 0);
            }
        }
        law_conversion_exists(large, reading, segs);
        law_conversion_is_cheapest(large, reading, segs);
    }
}

} // verus!
