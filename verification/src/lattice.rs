//! What the search over the reading lattice guarantees: the conversion it
//! finds is a segmentation of the reading, no segmentation is cheaper, and one
//! is found whenever some segmentation has a cost below the unreachable mark.

use vstd::prelude::*;

use crate::converter::{
    DictionaryEntry, Lattice, Step, UNKNOWN_COST, best_conversion, initial_lattice,
    lattice_upto, reads_at, relax, relax_entries, relax_from, saturate, trace_back,
};

verus! {

/// `step` is an edge of the lattice of `chars` that ends at `e`.
pub open spec fn step_ok(entries: Seq<DictionaryEntry>, chars: Seq<char>, step: Step, e: int) -> bool {
    match step.entry {
        Some(i) => i < entries.len() && reads_at(entries[i as int].reading@, chars, step.start as int)
            && e == step.start + entries[i as int].reading@.len(),
        None => step.start < chars.len() && e == step.start + 1,
    }
}

/// The cost of the edge `step`.
pub open spec fn step_weight(entries: Seq<DictionaryEntry>, step: Step) -> i32 {
    match step.entry {
        Some(i) => entries[i as int].word_cost,
        None => UNKNOWN_COST,
    }
}

/// `r` comes from `l` by edges leaving `s` offered at `path_cost`: no cost
/// rose, and every position that changed got a lower cost through such an
/// edge.
pub open spec fn pass_ok(
    entries: Seq<DictionaryEntry>,
    chars: Seq<char>,
    s: int,
    path_cost: i32,
    l: Lattice,
    r: Lattice,
) -> bool {
    &&& r.best.len() == l.best.len()
    &&& r.back.len() == l.back.len()
    &&& forall|e: int| 0 <= e < l.best.len() ==> #[trigger] r.best[e] <= l.best[e]
    &&& forall|e: int|
        0 <= e < l.best.len() ==> ((#[trigger] r.back[e] == l.back[e] && r.best[e] == l.best[e]) || (
        r.back[e] matches Some(st) && st.start == s && step_ok(entries, chars, st, e) && r.best[e]
            == saturate(path_cost + step_weight(entries, st)) && r.best[e] < l.best[e]))
}

pub open spec fn shape_ok(l: Lattice, n: int) -> bool {
    l.best.len() == n + 1 && l.back.len() == n + 1
}

proof fn lemma_relax(l: Lattice, end: int, total: i32, step: Step)
    requires
        0 <= end < l.best.len(),
        l.best.len() == l.back.len(),
    ensures
        relax(l, end, total, step).best.len() == l.best.len(),
        relax(l, end, total, step).back.len() == l.back.len(),
        relax(l, end, total, step).best[end] <= total,
        relax(l, end, total, step).best[end] <= l.best[end],
        forall|e: int| 0 <= e < l.best.len() && e != end ==> #[trigger] relax(l, end, total, step).best[e] == l.best[e]
            && relax(l, end, total, step).back[e] == l.back[e],
        relax(l, end, total, step).back[end] != l.back[end] || relax(l, end, total, step).best[end] != l.best[end] ==> relax(l, end, total, step).back[end] == Some(step)
            && relax(l, end, total, step).best[end] == total && total < l.best[end],
{
}

/// Offering the first `j` entries at `s` changes the lattice as `pass_ok`
/// says, and leaves each of their ends no dearer than the entry's offer.
proof fn lemma_relax_entries(
    entries: Seq<DictionaryEntry>,
    chars: Seq<char>,
    s: int,
    path_cost: i32,
    l: Lattice,
    j: int,
)
    requires
        shape_ok(l, chars.len() as int),
        0 <= s < chars.len(),
        0 <= j <= entries.len(),
        chars.len() <= usize::MAX,
        entries.len() <= usize::MAX,
    ensures
        pass_ok(entries, chars, s, path_cost, l, relax_entries(entries, chars, s, path_cost, l, j)),
        forall|i: int|
            0 <= i < j && reads_at(entries[i].reading@, chars, s) ==> #[trigger] relax_entries(
                entries,
                chars,
                s,
                path_cost,
                l,
                j,
            ).best[s + entries[i].reading@.len()] <= saturate(path_cost + entries[i].word_cost),
    decreases j,
{
    if j > 0 {
        lemma_relax_entries(entries, chars, s, path_cost, l, j - 1);
        let before = relax_entries(entries, chars, s, path_cost, l, j - 1);
        let r = relax_entries(entries, chars, s, path_cost, l, j);
        let e = entries[j - 1];
        if reads_at(e.reading@, chars, s) {
            let end = s + e.reading@.len();
            let st = Step { start: s as usize, entry: Some((j - 1) as usize) };
            lemma_relax(before, end, saturate(path_cost + e.word_cost), st);
            assert(step_ok(entries, chars, st, end));
            assert forall|e2: int| 0 <= e2 < l.best.len() implies ((#[trigger] r.back[e2] == l.back[e2] && r.best[e2] == l.best[e2]) || (
                r.back[e2] matches Some(st2) && st2.start == s && step_ok(entries, chars, st2, e2) && r.best[e2]
                    == saturate(path_cost + step_weight(entries, st2)) && r.best[e2] < l.best[e2])) by {
                if e2 != end {
                    assert(r.back[e2] == before.back[e2]);
                }
            }
        }
    }
}

/// Offering every edge leaving `s` changes the lattice as `pass_ok` says and
/// leaves each edge's end no dearer than its offer; an unreached `s` offers
/// nothing.
proof fn lemma_relax_from(entries: Seq<DictionaryEntry>, chars: Seq<char>, s: int, l: Lattice)
    requires
        shape_ok(l, chars.len() as int),
        0 <= s < chars.len(),
        chars.len() <= usize::MAX,
        entries.len() <= usize::MAX,
    ensures
        l.best[s] == i32::MAX ==> relax_from(entries, chars, s, l) == l,
        pass_ok(entries, chars, s, l.best[s], l, relax_from(entries, chars, s, l)),
        l.best[s] != i32::MAX ==> relax_from(entries, chars, s, l).best[s + 1] <= saturate(
            l.best[s] + UNKNOWN_COST,
        ),
        l.best[s] != i32::MAX ==> forall|i: int|
            0 <= i < entries.len() && reads_at(entries[i].reading@, chars, s) ==> #[trigger] relax_from(
                entries,
                chars,
                s,
                l,
            ).best[s + entries[i].reading@.len()] <= saturate(l.best[s] + entries[i].word_cost),
{
    let pc = l.best[s];
    if pc != i32::MAX {
        lemma_relax_entries(entries, chars, s, pc, l, entries.len() as int);
        let l1 = relax_entries(entries, chars, s, pc, l, entries.len() as int);
        let st = Step { start: s as usize, entry: None };
        let r = relax_from(entries, chars, s, l);
        lemma_relax(l1, s + 1, saturate(pc + UNKNOWN_COST), st);
        assert(step_ok(entries, chars, st, s + 1));
        assert forall|e2: int| 0 <= e2 < l.best.len() implies ((#[trigger] r.back[e2] == l.back[e2] && r.best[e2] == l.best[e2]) || (
            r.back[e2] matches Some(st2) && st2.start == s && step_ok(entries, chars, st2, e2) && r.best[e2]
                == saturate(pc + step_weight(entries, st2)) && r.best[e2] < l.best[e2])) by {
            if e2 != s + 1 {
                assert(r.back[e2] == l1.back[e2]);
            }
        }
        assert forall|i: int|
            0 <= i < entries.len() && reads_at(entries[i].reading@, chars, s) implies #[trigger] r.best[s
                + entries[i].reading@.len()] <= saturate(pc + entries[i].word_cost) by {
            assert(l1.best[s + entries[i].reading@.len()] <= saturate(pc + entries[i].word_cost));
        }
    }
}


/// The cost at which the search reached position `s` when it came to offer
/// the edges leaving `s` (`i32::MAX`: not reached).
pub open spec fn reached_cost(entries: Seq<DictionaryEntry>, chars: Seq<char>, s: int) -> i32 {
    lattice_upto(entries, chars, s).best[s]
}

pub open spec fn initial_cost(e: int) -> i32 {
    if e == 0 {
        0
    } else {
        i32::MAX
    }
}

/// The step recorded at `e` is an entry with an empty reading, offered from
/// `e` itself, that lowered the cost of `e` below the one it was reached at.
pub open spec fn lowered_by_empty_entry(entries: Seq<DictionaryEntry>, chars: Seq<char>, l: Lattice, e: int) -> bool {
    &&& l.back[e] is Some
    &&& l.back[e]->0.start == e
    &&& l.back[e]->0.entry is Some
    &&& entries[l.back[e]->0.entry->0 as int].reading@.len() == 0
    &&& l.best[e] == saturate(reached_cost(entries, chars, e) + entries[l.back[e]->0.entry->0 as int].word_cost)
    &&& l.best[e] < reached_cost(entries, chars, e)
}

/// What holds of the search after the edges leaving `0..k` were offered:
/// every recorded step is an edge from an earlier reached position whose
/// cost it carries; a position without a step keeps its initial cost; and a
/// position below `k` is as it was when its own edges were offered, unless
/// an entry with an empty reading lowered it then.
pub open spec fn lattice_ok(entries: Seq<DictionaryEntry>, chars: Seq<char>, k: int) -> bool {
    let l = lattice_upto(entries, chars, k);
    let n = chars.len() as int;
    &&& shape_ok(l, n)
    &&& forall|e: int|
        0 <= e <= n ==> (#[trigger] l.back[e] matches Some(st) ==> st.start < k && step_ok(
            entries,
            chars,
            st,
            e,
        ) && reached_cost(entries, chars, st.start as int) != i32::MAX && l.best[e] == saturate(
            reached_cost(entries, chars, st.start as int) + step_weight(entries, st),
        ))
    &&& forall|e: int| 0 <= e <= n ==> ((#[trigger] l.back[e]) is None ==> l.best[e] == initial_cost(e))
    &&& forall|e: int|
        0 <= e < k ==> ((#[trigger] l.back[e] == lattice_upto(entries, chars, e).back[e] && l.best[e]
            == reached_cost(entries, chars, e)) || lowered_by_empty_entry(entries, chars, l, e))
}

pub proof fn lemma_lattice_ok(entries: Seq<DictionaryEntry>, chars: Seq<char>, k: int)
    requires
        0 <= k <= chars.len(),
        chars.len() <= usize::MAX,
        entries.len() <= usize::MAX,
    ensures
        lattice_ok(entries, chars, k),
    decreases k,
{
    let n = chars.len() as int;
    if k == 0 {
        let l = lattice_upto(entries, chars, 0);
        assert(l == initial_lattice(n));
        assert forall|e: int| 0 <= e <= n implies (#[trigger] l.back[e]) is None by {}
    } else {
        lemma_lattice_ok(entries, chars, k - 1);
        let l = lattice_upto(entries, chars, k - 1);
        let r = lattice_upto(entries, chars, k);
        let s = k - 1;
        lemma_relax_from(entries, chars, s, l);
        assert(r == relax_from(entries, chars, s, l));
        let pc = l.best[s];
        assert(pc == reached_cost(entries, chars, s));
        assert forall|e: int|
            0 <= e <= n implies (#[trigger] r.back[e] matches Some(st) ==> st.start < k && step_ok(
                entries,
                chars,
                st,
                e,
            ) && reached_cost(entries, chars, st.start as int) != i32::MAX && r.best[e] == saturate(
                reached_cost(entries, chars, st.start as int) + step_weight(entries, st),
            )) by {
            if r.back[e] != l.back[e] || r.best[e] != l.best[e] {
                assert(pc != i32::MAX);
            }
        }
        assert forall|e: int| 0 <= e <= n implies ((#[trigger] r.back[e]) is None ==> r.best[e] == initial_cost(e)) by {
        }
        assert forall|e: int|
            0 <= e < k implies ((#[trigger] r.back[e] == lattice_upto(entries, chars, e).back[e] && r.best[e]
                == reached_cost(entries, chars, e)) || lowered_by_empty_entry(entries, chars, r, e)) by {
            if e < s {
                if r.back[e] != l.back[e] || r.best[e] != l.best[e] {
                    let st = r.back[e]->0;
                    assert(step_ok(entries, chars, st, e));
                    assert(false);
                }
            } else {
                assert(e == s);
                assert(lattice_upto(entries, chars, e) == l);
            }
        }
    }
}


/// A segment of a conversion: reading, surface, cost.
pub type SegmentView = (Seq<char>, Seq<char>, i32);

/// `seg` is an edge of the lattice: one character read as itself at
/// `UNKNOWN_COST`, or a dictionary entry with a non-empty reading.
pub open spec fn is_edge(entries: Seq<DictionaryEntry>, seg: SegmentView) -> bool {
    ||| seg.0.len() == 1 && seg.1 == seg.0 && seg.2 == UNKNOWN_COST
    ||| exists|j: int|
        0 <= j < entries.len() && #[trigger] entries[j].reading@ == seg.0 && seg.0.len() > 0
            && entries[j].surface@ == seg.1 && entries[j].word_cost == seg.2
}

/// The readings of `segs`, one after the other.
pub open spec fn joined_readings(segs: Seq<SegmentView>) -> Seq<char>
    decreases segs.len(),
{
    if segs.len() == 0 {
        Seq::empty()
    } else {
        joined_readings(segs.drop_last()) + segs.last().0
    }
}

/// `segs` splits `chars` into lattice edges.
pub open spec fn is_segmentation(entries: Seq<DictionaryEntry>, chars: Seq<char>, segs: Seq<SegmentView>) -> bool {
    &&& joined_readings(segs) == chars
    &&& forall|i: int| 0 <= i < segs.len() ==> is_edge(entries, #[trigger] segs[i])
}

/// The cost of a path: its segment costs added in order with saturating
/// addition, where reaching `i32::MAX` means unreachable for good.
pub open spec fn path_cost(segs: Seq<SegmentView>) -> i32
    decreases segs.len(),
{
    if segs.len() == 0 {
        0
    } else {
        let before = path_cost(segs.drop_last());
        if before == i32::MAX {
            i32::MAX
        } else {
            saturate(before + segs.last().2)
        }
    }
}

/// No entry with an empty reading has a negative cost.
pub open spec fn no_negative_empty_entry(entries: Seq<DictionaryEntry>) -> bool {
    forall|i: int| 0 <= i < entries.len() && (#[trigger] entries[i]).reading@.len() == 0 ==> entries[i].word_cost >= 0
}

/// Costs only fall as the search goes on.
proof fn lemma_lattice_monotone(entries: Seq<DictionaryEntry>, chars: Seq<char>, k1: int, k2: int)
    requires
        0 <= k1 <= k2 <= chars.len(),
        chars.len() <= usize::MAX,
        entries.len() <= usize::MAX,
    ensures
        forall|e: int|
            0 <= e <= chars.len() ==> #[trigger] lattice_upto(entries, chars, k2).best[e] <= lattice_upto(
                entries,
                chars,
                k1,
            ).best[e],
    decreases k2 - k1,
{
    if k2 > k1 {
        lemma_lattice_monotone(entries, chars, k1, k2 - 1);
        lemma_lattice_ok(entries, chars, k2 - 1);
        lemma_relax_from(entries, chars, k2 - 1, lattice_upto(entries, chars, k2 - 1));
    }
}

/// A path that the recorded steps lead back along is a segmentation of the
/// reading up to `cursor`, and costs what the search reached `cursor` at.
proof fn lemma_trace_back(entries: Seq<DictionaryEntry>, chars: Seq<char>, cursor: int)
    requires
        0 <= cursor <= chars.len(),
        chars.len() <= usize::MAX,
        entries.len() <= usize::MAX,
    ensures
        trace_back(entries, chars, lattice_upto(entries, chars, chars.len() as int).back, cursor) matches Some(segs)
            ==> joined_readings(segs) == chars.take(cursor) && (forall|i: int|
            0 <= i < segs.len() ==> is_edge(entries, #[trigger] segs[i])) && path_cost(segs)
            == reached_cost(entries, chars, cursor),
    decreases cursor,
{
    let n = chars.len() as int;
    let fin = lattice_upto(entries, chars, n);
    if cursor == 0 {
        assert(chars.take(0) =~= Seq::<char>::empty());
    } else {
        match fin.back[cursor] {
            None => {},
            Some(st) => {
                if st.start < cursor {
                    let start = st.start as int;
                    lemma_trace_back(entries, chars, start);
                    lemma_lattice_ok(entries, chars, n);
                    lemma_lattice_ok(entries, chars, cursor);
                    let lc = lattice_upto(entries, chars, cursor);
                    if cursor < n {
                        assert(fin.back[cursor] == lc.back[cursor]);
                    }
                    assert(lc.back[cursor] == Some(st));
                    assert(step_ok(entries, chars, st, cursor));
                    match trace_back(entries, chars, fin.back, start) {
                        None => {},
                        Some(prefix) => {
                            let seg = crate::converter::step_segment(entries, chars, st);
                            let segs = prefix.push(seg);
                            assert(segs.drop_last() =~= prefix);
                            match st.entry {
                                Some(j) => {
                                    let r = entries[j as int].reading@;
                                    assert(chars.subrange(start, start + r.len()) == r);
                                    assert(chars.take(cursor) =~= chars.take(start) + r);
                                    assert(is_edge(entries, seg));
                                },
                                None => {
                                    assert(chars.take(cursor) =~= chars.take(start) + seq![chars[start]]);
                                },
                            }
                            assert forall|i: int| 0 <= i < segs.len() implies is_edge(entries, #[trigger] segs[i]) by {
                                if i < prefix.len() {
                                    assert(segs[i] == prefix[i]);
                                }
                            }
                        },
                    }
                }
            },
        }
    }
}

/// No path to `e` costs less than what the search reached `e` at.
proof fn lemma_cheapest(entries: Seq<DictionaryEntry>, chars: Seq<char>, segs: Seq<SegmentView>, e: int)
    requires
        0 <= e <= chars.len(),
        chars.len() <= usize::MAX,
        entries.len() <= usize::MAX,
        joined_readings(segs) == chars.take(e),
        forall|i: int| 0 <= i < segs.len() ==> is_edge(entries, #[trigger] segs[i]),
    ensures
        reached_cost(entries, chars, e) <= path_cost(segs),
    decreases segs.len(),
{
    if segs.len() == 0 {
        assert(chars.take(e).len() == 0);
        assert(e == 0);
    } else {
        let p = segs.drop_last();
        let seg = segs.last();
        assert(is_edge(entries, segs[segs.len() - 1]));
        assert(seg.0.len() >= 1);
        let joined = joined_readings(p);
        assert(joined + seg.0 == chars.take(e));
        let e0 = e - seg.0.len();
        assert(joined.len() == e0);
        assert(joined =~= chars.take(e0)) by {
            assert forall|t: int| 0 <= t < e0 implies joined[t] == chars.take(e0)[t] by {
                assert((joined + seg.0)[t] == chars.take(e)[t]);
            }
        }
        assert(seg.0 =~= chars.subrange(e0, e)) by {
            assert forall|t: int| 0 <= t < seg.0.len() implies seg.0[t] == chars.subrange(e0, e)[t] by {
                assert((joined + seg.0)[e0 + t] == chars.take(e)[e0 + t]);
            }
        }
        assert forall|i: int| 0 <= i < p.len() implies is_edge(entries, #[trigger] p[i]) by {
            assert(p[i] == segs[i]);
        }
        lemma_cheapest(entries, chars, p, e0);
        if path_cost(p) != i32::MAX {
            let l0 = lattice_upto(entries, chars, e0);
            lemma_lattice_ok(entries, chars, e0);
            lemma_relax_from(entries, chars, e0, l0);
            assert(lattice_upto(entries, chars, e0 + 1) == relax_from(entries, chars, e0, l0));
            lemma_lattice_monotone(entries, chars, e0 + 1, e);
            let reached0 = reached_cost(entries, chars, e0);
            if seg.0.len() == 1 && seg.1 == seg.0 && seg.2 == UNKNOWN_COST {
                assert(lattice_upto(entries, chars, e0 + 1).best[e0 + 1] <= saturate(reached0 + UNKNOWN_COST));
            } else {
                let j = choose|j: int|
                    0 <= j < entries.len() && #[trigger] entries[j].reading@ == seg.0 && seg.0.len() > 0
                        && entries[j].surface@ == seg.1 && entries[j].word_cost == seg.2;
                assert(reads_at(entries[j].reading@, chars, e0));
                assert(lattice_upto(entries, chars, e0 + 1).best[e0 + entries[j].reading@.len()] <= saturate(
                    reached0 + entries[j].word_cost,
                ));
            }
        }
    }
}

/// The conversion found is a segmentation of the reading into lattice edges;
/// its surface is the segments' surfaces in order and its cost is the
/// path's cost, below `i32::MAX`.
pub proof fn law_conversion_is_segmentation(entries: Seq<DictionaryEntry>, chars: Seq<char>)
    requires
        chars.len() <= usize::MAX,
        entries.len() <= usize::MAX,
    ensures
        best_conversion(entries, chars) matches Some(c) ==> is_segmentation(entries, chars, c.1)
            && c.0 == crate::converter::joined_surfaces(c.1) && c.2 == path_cost(c.1) && c.2 < i32::MAX,
{
    let n = chars.len() as int;
    lemma_trace_back(entries, chars, n);
    assert(chars.take(n) =~= chars);
}

/// No segmentation of the reading costs less than the conversion found.
pub proof fn law_conversion_is_cheapest(entries: Seq<DictionaryEntry>, chars: Seq<char>, segs: Seq<SegmentView>)
    requires
        chars.len() <= usize::MAX,
        entries.len() <= usize::MAX,
        is_segmentation(entries, chars, segs),
    ensures
        best_conversion(entries, chars) matches Some(c) ==> c.2 <= path_cost(segs),
{
    let n = chars.len() as int;
    assert(chars.take(n) =~= chars);
    lemma_cheapest(entries, chars, segs, n);
}

/// Following the recorded steps back from a reached position gets to the
/// start, when no entry with an empty reading has a negative cost.
proof fn lemma_trace_found(entries: Seq<DictionaryEntry>, chars: Seq<char>, cursor: int)
    requires
        0 <= cursor <= chars.len(),
        chars.len() <= usize::MAX,
        entries.len() <= usize::MAX,
        no_negative_empty_entry(entries),
        reached_cost(entries, chars, cursor) != i32::MAX,
    ensures
        trace_back(entries, chars, lattice_upto(entries, chars, chars.len() as int).back, cursor) is Some,
    decreases cursor,
{
    let n = chars.len() as int;
    if cursor > 0 {
        lemma_lattice_ok(entries, chars, n);
        lemma_lattice_ok(entries, chars, cursor);
        let fin = lattice_upto(entries, chars, n);
        let lc = lattice_upto(entries, chars, cursor);
        assert(lc.back[cursor] is Some);
        let st = lc.back[cursor]->0;
        if cursor < n {
            if fin.back[cursor] != lc.back[cursor] {
                assert(lowered_by_empty_entry(entries, chars, fin, cursor));
                let i = fin.back[cursor]->0.entry->0 as int;
                assert(entries[i].reading@.len() == 0);
                assert(false);
            }
        }
        lemma_trace_found(entries, chars, st.start as int);
    }
}

/// A non-empty reading converts whenever some segmentation of it costs less
/// than `i32::MAX` and no entry with an empty reading has a negative cost.
pub proof fn law_conversion_exists(entries: Seq<DictionaryEntry>, chars: Seq<char>, segs: Seq<SegmentView>)
    requires
        chars.len() <= usize::MAX,
        entries.len() <= usize::MAX,
        no_negative_empty_entry(entries),
        chars.len() > 0,
        is_segmentation(entries, chars, segs),
        path_cost(segs) < i32::MAX,
    ensures
        best_conversion(entries, chars) is Some,
{
    let n = chars.len() as int;
    assert(chars.take(n) =~= chars);
    lemma_cheapest(entries, chars, segs, n);
    lemma_trace_found(entries, chars, n);
}


/// What the search reads of an entry: reading, cost, surface.
pub open spec fn entry_key(e: DictionaryEntry) -> (Seq<char>, i32, Seq<char>) {
    (e.reading@, e.word_cost, e.surface@)
}

pub open spec fn entry_keys(entries: Seq<DictionaryEntry>) -> Seq<(Seq<char>, i32, Seq<char>)> {
    entries.map_values(|e: DictionaryEntry| entry_key(e))
}

/// A recorded step names an entry index below `m`.
pub open spec fn step_index_ok(o: Option<Step>, m: int) -> bool {
    match o {
        Some(st) => match st.entry {
            Some(i) => i < m,
            None => true,
        },
        None => true,
    }
}

proof fn lemma_relax_entries_keys(
    e1: Seq<DictionaryEntry>,
    e2: Seq<DictionaryEntry>,
    chars: Seq<char>,
    s: int,
    path_cost: i32,
    l: Lattice,
    j: int,
)
    requires
        entry_keys(e1) == entry_keys(e2),
        0 <= j <= e1.len(),
    ensures
        relax_entries(e1, chars, s, path_cost, l, j) == relax_entries(e2, chars, s, path_cost, l, j),
    decreases j,
{
    if j > 0 {
        lemma_relax_entries_keys(e1, e2, chars, s, path_cost, l, j - 1);
        assert(entry_keys(e1).len() == e1.len());
        assert(entry_keys(e2).len() == e2.len());
        assert(entry_keys(e1)[j - 1] == entry_key(e1[j - 1]));
        assert(entry_keys(e2)[j - 1] == entry_key(e2[j - 1]));
        assert(e1[j - 1].reading@ == e2[j - 1].reading@);
        assert(e1[j - 1].word_cost == e2[j - 1].word_cost);
    }
}

proof fn lemma_lattice_keys(e1: Seq<DictionaryEntry>, e2: Seq<DictionaryEntry>, chars: Seq<char>, k: int)
    requires
        entry_keys(e1) == entry_keys(e2),
    ensures
        lattice_upto(e1, chars, k) == lattice_upto(e2, chars, k),
    decreases k,
{
    if k > 0 {
        lemma_lattice_keys(e1, e2, chars, k - 1);
        let l = lattice_upto(e1, chars, k - 1);
        assert(e1.len() == entry_keys(e1).len());
        assert(e2.len() == entry_keys(e2).len());
        lemma_relax_entries_keys(e1, e2, chars, k - 1, l.best[k - 1], l, e1.len() as int);
    }
}

proof fn lemma_trace_back_keys(
    e1: Seq<DictionaryEntry>,
    e2: Seq<DictionaryEntry>,
    chars: Seq<char>,
    back: Seq<Option<Step>>,
    cursor: int,
)
    requires
        entry_keys(e1) == entry_keys(e2),
        cursor < back.len(),
        forall|e: int| 0 <= e < back.len() ==> step_index_ok(#[trigger] back[e], e1.len() as int),
    ensures
        trace_back(e1, chars, back, cursor) == trace_back(e2, chars, back, cursor),
    decreases cursor,
{
    if cursor > 0 {
        match back[cursor] {
            None => {},
            Some(st) => {
                if st.start < cursor {
                    lemma_trace_back_keys(e1, e2, chars, back, st.start as int);
                    assert(step_index_ok(back[cursor], e1.len() as int));
                    assert(entry_keys(e1).len() == e1.len());
                    assert(entry_keys(e2).len() == e2.len());
                    match st.entry {
                        Some(i) => {
                            assert(entry_keys(e1)[i as int] == entry_key(e1[i as int]));
                            assert(entry_keys(e2)[i as int] == entry_key(e2[i as int]));
                            assert(crate::converter::step_segment(e1, chars, st) == crate::converter::step_segment(e2, chars, st));
                        },
                        None => {},
                    }
                }
            },
        }
    }
}

/// The conversion depends on the entries only through their readings,
/// costs and surfaces, in order.
pub proof fn lemma_best_conversion_keys(e1: Seq<DictionaryEntry>, e2: Seq<DictionaryEntry>, chars: Seq<char>)
    requires
        entry_keys(e1) == entry_keys(e2),
        chars.len() <= usize::MAX,
        e1.len() <= usize::MAX,
    ensures
        best_conversion(e1, chars) == best_conversion(e2, chars),
{
    let n = chars.len() as int;
    lemma_lattice_keys(e1, e2, chars, n);
    lemma_lattice_ok(e1, chars, n);
    let back = lattice_upto(e1, chars, n).back;
    assert forall|e: int| 0 <= e < back.len() implies step_index_ok(#[trigger] back[e], e1.len() as int) by {
        if back[e] is Some {
            assert(step_ok(e1, chars, back[e]->0, e));
        }
    }
    lemma_trace_back_keys(e1, e2, chars, back, n);
}

} // verus!
