//! A small, deterministic kana-kanji conversion baseline: a sorted
//! dictionary, a minimum-cost search over the reading lattice, and the
//! candidate list built from both.

use vstd::prelude::*;

use crate::lattice::{is_segmentation, law_conversion_is_cheapest, law_conversion_is_segmentation, path_cost, SegmentView};
use crate::order::{in_order, lemma_insert_position, sort_in_order};
use crate::ordering::{law_candidates_in_order, law_dictionary_order, unconverted_last};
use crate::text::{chars_of, push_char, same_chars};
use vstd::string::StringExecFns;

verus! {

/// Cost of reading one character of the input as itself.
pub const UNKNOWN_COST: i32 = 10000;

/// Cost of the candidate that leaves the whole reading unconverted.
pub const LITERAL_COST: i32 = 20000;

/// One dictionary word: its kana reading, its written form and its cost.
#[derive(Clone, Copy, Debug, PartialEq, Eq)]
pub struct DictionaryEntry {
    pub reading: &'static str,
    pub surface: &'static str,
    pub word_cost: i32,
}

/// A conversion candidate for a whole reading.
#[derive(Clone, Debug, PartialEq, Eq)]
pub struct Candidate {
    pub surface: String,
    pub cost: i32,
}

impl View for Candidate {
    type V = (Seq<char>, i32);

    open spec fn view(&self) -> (Seq<char>, i32) {
        (self.surface@, self.cost)
    }
}

/// One piece of a segmented conversion.
#[derive(Clone, Debug, PartialEq, Eq)]
pub struct Segment {
    pub reading: String,
    pub surface: String,
    pub cost: i32,
}

impl View for Segment {
    type V = (Seq<char>, Seq<char>, i32);

    open spec fn view(&self) -> (Seq<char>, Seq<char>, i32) {
        (self.reading@, self.surface@, self.cost)
    }
}

/// The best path through the reading lattice.
#[derive(Clone, Debug, PartialEq, Eq)]
pub struct Conversion {
    pub surface: String,
    pub segments: Vec<Segment>,
    pub cost: i32,
}

/// A conversion as mathematical values: surface, segments, total cost.
pub type ConversionView = (Seq<char>, Seq<(Seq<char>, Seq<char>, i32)>, i32);

impl View for Conversion {
    type V = ConversionView;

    open spec fn view(&self) -> ConversionView {
        (self.surface@, self.segments@.map_values(|s: Segment| s@), self.cost)
    }
}

/// `a` comes strictly before `b` in code point order (which is also the
/// byte order of their UTF-8 encodings).
pub open spec fn chars_before(a: Seq<char>, b: Seq<char>) -> bool
    decreases a.len(),
{
    if b.len() == 0 {
        false
    } else if a.len() == 0 {
        true
    } else if a[0] != b[0] {
        (a[0] as int) < (b[0] as int)
    } else {
        chars_before(a.drop_first(), b.drop_first())
    }
}

/// Dictionary order: by reading, then by cost, then by surface.
pub open spec fn entry_le(a: DictionaryEntry, b: DictionaryEntry) -> bool {
    ||| chars_before(a.reading@, b.reading@)
    ||| a.reading@ == b.reading@ && a.word_cost < b.word_cost
    ||| a.reading@ == b.reading@ && a.word_cost == b.word_cost && !chars_before(
        b.surface@,
        a.surface@,
    )
}

pub open spec fn entry_order() -> spec_fn(DictionaryEntry, DictionaryEntry) -> bool {
    |a: DictionaryEntry, b: DictionaryEntry| entry_le(a, b)
}

/// The entries that ship with the library.
pub open spec fn bundled_entries() -> Seq<DictionaryEntry> {
    seq![
        DictionaryEntry { reading: "きょう", surface: "今日", word_cost: 10 },
        DictionaryEntry { reading: "こんにちは", surface: "こんにちは", word_cost: 5 },
        DictionaryEntry { reading: "にほん", surface: "日本", word_cost: 10 },
        DictionaryEntry { reading: "にほん", surface: "二本", word_cost: 20 },
        DictionaryEntry { reading: "は", surface: "は", word_cost: 1 },
        DictionaryEntry { reading: "わたし", surface: "私", word_cost: 10 },
    ]
}

impl Default for Dictionary {
    fn default() -> (d: Self)
        ensures
            d@ == sort_in_order(bundled_entries(), entry_order()),
    {
        Self::bundled()
    }
}

/// How the best path reaches a position: the position it comes from, and the
/// dictionary entry that covers the characters in between (`None`: the one
/// character there, read as itself).
#[derive(Clone, Copy, Debug, PartialEq, Eq)]
pub struct Step {
    pub start: usize,
    pub entry: Option<usize>,
}

/// The state of the search over the reading lattice: for each character
/// position, the lowest cost found to reach it (`i32::MAX`: not reached) and
/// the step that reached it at that cost.
pub struct Lattice {
    pub best: Seq<i32>,
    pub back: Seq<Option<Step>>,
}

/// `x` clamped into the range of `i32` (saturating addition).
pub open spec fn saturate(x: int) -> i32 {
    if x > i32::MAX {
        i32::MAX
    } else if x < i32::MIN {
        i32::MIN
    } else {
        x as i32
    }
}

/// `r` occurs in `chars` at position `start`.
pub open spec fn reads_at(r: Seq<char>, chars: Seq<char>, start: int) -> bool {
    0 <= start && start + r.len() <= chars.len() && chars.subrange(start, start + r.len()) == r
}

/// Offers `total` as the cost of reaching `end` by `step`; kept only when it
/// is strictly lower than the cost known so far.
pub open spec fn relax(l: Lattice, end: int, total: i32, step: Step) -> Lattice {
    if total >= l.best[end] {
        l
    } else {
        Lattice { best: l.best.update(end, total), back: l.back.update(end, Some(step)) }
    }
}

/// Offers, in dictionary order, the first `j` entries that occur at `start`.
pub open spec fn relax_entries(
    entries: Seq<DictionaryEntry>,
    chars: Seq<char>,
    start: int,
    path_cost: i32,
    l: Lattice,
    j: int,
) -> Lattice
    decreases j,
{
    if j <= 0 {
        l
    } else {
        let before = relax_entries(entries, chars, start, path_cost, l, j - 1);
        let e = entries[j - 1];
        if reads_at(e.reading@, chars, start) {
            relax(
                before,
                start + e.reading@.len(),
                saturate(path_cost + e.word_cost),
                Step { start: start as usize, entry: Some((j - 1) as usize) },
            )
        } else {
            before
        }
    }
}

/// Offers every edge leaving `start`: the dictionary entries in dictionary
/// order, then the one character read as itself. A position that was not
/// reached offers nothing.
pub open spec fn relax_from(
    entries: Seq<DictionaryEntry>,
    chars: Seq<char>,
    start: int,
    l: Lattice,
) -> Lattice {
    let path_cost = l.best[start];
    if path_cost == i32::MAX {
        l
    } else {
        let l1 = relax_entries(entries, chars, start, path_cost, l, entries.len() as int);
        relax(
            l1,
            start + 1,
            saturate(path_cost + UNKNOWN_COST),
            Step { start: start as usize, entry: None },
        )
    }
}

/// Before the search: position 0 costs nothing, no other is reached.
pub open spec fn initial_lattice(n: int) -> Lattice {
    Lattice {
        best: Seq::new((n + 1) as nat, |i: int| if i == 0 { 0i32 } else { i32::MAX }),
        back: Seq::new((n + 1) as nat, |i: int| None::<Step>),
    }
}

/// The search after the edges leaving positions `0..k` have been offered.
pub open spec fn lattice_upto(entries: Seq<DictionaryEntry>, chars: Seq<char>, k: int) -> Lattice
    decreases k,
{
    if k <= 0 {
        initial_lattice(chars.len() as int)
    } else {
        relax_from(entries, chars, k - 1, lattice_upto(entries, chars, k - 1))
    }
}

/// The segment that a step stands for: reading, surface, cost.
pub open spec fn step_segment(entries: Seq<DictionaryEntry>, chars: Seq<char>, step: Step) -> (
    Seq<char>,
    Seq<char>,
    i32,
) {
    match step.entry {
        Some(j) => (entries[j as int].reading@, entries[j as int].surface@, entries[j as int].word_cost),
        None => (seq![chars[step.start as int]], seq![chars[step.start as int]], UNKNOWN_COST),
    }
}

/// The segments of the path that ends at `cursor`, found by following the
/// recorded steps back to position 0 (`None` if a step is missing or does
/// not lead backwards).
pub open spec fn trace_back(
    entries: Seq<DictionaryEntry>,
    chars: Seq<char>,
    back: Seq<Option<Step>>,
    cursor: int,
) -> Option<Seq<(Seq<char>, Seq<char>, i32)>>
    decreases cursor,
{
    if cursor <= 0 {
        Some(Seq::empty())
    } else {
        match back[cursor] {
            None => None,
            Some(step) => if step.start >= cursor {
                None
            } else {
                match trace_back(entries, chars, back, step.start as int) {
                    None => None,
                    Some(prefix) => Some(prefix.push(step_segment(entries, chars, step))),
                }
            },
        }
    }
}

/// The surfaces of `segs`, one after the other.
pub open spec fn joined_surfaces(segs: Seq<(Seq<char>, Seq<char>, i32)>) -> Seq<char>
    decreases segs.len(),
{
    if segs.len() == 0 {
        Seq::empty()
    } else {
        joined_surfaces(segs.drop_last()) + segs.last().1
    }
}

/// The lowest-cost conversion of `chars`: none for an empty reading or when
/// the end of the reading is not reached; else the recorded path to it.
pub open spec fn best_conversion(entries: Seq<DictionaryEntry>, chars: Seq<char>) -> Option<
    ConversionView,
> {
    let n = chars.len() as int;
    if n == 0 {
        None
    } else {
        let l = lattice_upto(entries, chars, n);
        if l.best[n] == i32::MAX {
            None
        } else {
            match trace_back(entries, chars, l.back, n) {
                Some(segs) => Some((joined_surfaces(segs), segs, l.best[n])),
                None => None,
            }
        }
    }
}

pub open spec fn conversion_view(c: Option<Conversion>) -> Option<ConversionView> {
    match c {
        Some(c) => Some(c@),
        None => None,
    }
}

/// Every recorded step leads from a position of the reading, by a valid
/// entry index.
pub open spec fn steps_valid(back: Seq<Option<Step>>, n: int, m: int) -> bool {
    forall|i: int|
        0 <= i < back.len() && (#[trigger] back[i]) is Some ==> back[i]->0.start < n && (
        back[i]->0.entry matches Some(j) ==> j < m)
}

/// `a + b`, saturating at the bounds of `i32`.
fn saturating_add(a: i32, b: i32) -> (r: i32)
    ensures
        r == saturate(a + b),
{
    let s: i64 = a as i64 + b as i64;
    if s > i32::MAX as i64 {
        i32::MAX
    } else if s < i32::MIN as i64 {
        i32::MIN
    } else {
        s as i32
    }
}

/// Whether `r` occurs in `chars` at `start`.
fn reads_at_exec(r: &Vec<char>, chars: &Vec<char>, start: usize) -> (b: bool)
    requires
        start <= chars@.len(),
    ensures
        b == reads_at(r@, chars@, start as int),
{
    if r.len() > chars.len() - start {
        return false;
    }
    for i in 0..r.len()
        invariant
            start + r.len() <= chars.len(),
            forall|t: int| 0 <= t < i ==> chars@[start + t] == r@[t],
    {
        if chars[start + i] != r[i] {
            assert(chars@.subrange(start as int, start + r@.len())[i as int] != r@[i as int]);
            return false;
        }
    }
    assert(chars@.subrange(start as int, start + r@.len()) =~= r@);
    true
}

/// Keeps `total` as the cost of reaching `end` by `step` when it is strictly
/// lower than the cost known so far.
fn update_path(best: &mut Vec<i32>, back: &mut Vec<Option<Step>>, end: usize, total: i32, step: Step)
    requires
        end < old(best)@.len(),
        old(best)@.len() == old(back)@.len(),
    ensures
        final(best)@.len() == old(best)@.len(),
        final(back)@.len() == old(back)@.len(),
        (Lattice { best: final(best)@, back: final(back)@ }) == relax(
            Lattice { best: old(best)@, back: old(back)@ },
            end as int,
            total,
            step,
        ),
{
    if total >= best[end] {
        return;
    }
    best.set(end, total);
    back.set(end, Some(step));
}

/// The candidates of a whole reading, as (surface, cost).
pub type CandidateView = (Seq<char>, i32);

pub open spec fn candidate_views(v: Seq<Candidate>) -> Seq<CandidateView> {
    v.map_values(|c: Candidate| c@)
}

/// The first `j` entries whose reading is `r`, in dictionary order, each as a
/// candidate with its own surface and cost.
pub open spec fn exact_candidates(entries: Seq<DictionaryEntry>, r: Seq<char>, j: int) -> Seq<
    CandidateView,
>
    decreases j,
{
    if j <= 0 {
        Seq::empty()
    } else {
        let before = exact_candidates(entries, r, j - 1);
        if entries[j - 1].reading@ == r {
            before.push((entries[j - 1].surface@, entries[j - 1].word_cost))
        } else {
            before
        }
    }
}

/// Some candidate in `cands` has the surface `s`.
pub open spec fn has_surface(cands: Seq<CandidateView>, s: Seq<char>) -> bool {
    exists|i: int| 0 <= i < cands.len() && (#[trigger] cands[i]).0 == s
}

/// The candidates of `r` before ordering: the exact entries; then the best
/// conversion unless an exact entry already has its surface; then `r`
/// itself at `LITERAL_COST` unless some candidate already is `r`.
pub open spec fn candidate_pool(entries: Seq<DictionaryEntry>, r: Seq<char>) -> Seq<CandidateView> {
    let exact = exact_candidates(entries, r, entries.len() as int);
    let with_best = match best_conversion(entries, r) {
        Some(c) => if has_surface(exact, c.0) {
            exact
        } else {
            exact.push((c.0, c.2))
        },
        None => exact,
    };
    if has_surface(with_best, r) {
        with_best
    } else {
        with_best.push((r, LITERAL_COST))
    }
}

/// Candidate order for the reading `r`: converted candidates (surface other
/// than `r`) come first, by cost; the reading left unconverted comes after
/// all of them.
pub open spec fn candidate_le(r: Seq<char>, a: CandidateView, b: CandidateView) -> bool {
    (a.0 != r && b.0 == r) || ((a.0 == r) == (b.0 == r) && a.1 <= b.1)
}

pub open spec fn candidate_order(r: Seq<char>) -> spec_fn(CandidateView, CandidateView) -> bool {
    |a: CandidateView, b: CandidateView| candidate_le(r, a, b)
}

/// Whether some candidate in `v` has the surface `s`.
fn contains_surface(v: &Vec<Candidate>, s: &String) -> (r: bool)
    ensures
        r == has_surface(candidate_views(v@), s@),
{
    for i in 0..v.len()
        invariant
            forall|t: int| 0 <= t < i ==> v@[t].surface@ != s@,
    {
        if v[i].surface == *s {
            assert(candidate_views(v@)[i as int].0 == s@);
            return true;
        }
    }
    assert forall|t: int| 0 <= t < candidate_views(v@).len() implies (#[trigger] candidate_views(v@)[t]).0 != s@ by {
        assert(candidate_views(v@)[t] == v@[t]@);
    }
    false
}

/// The candidates in candidate order for the reading `literal`; candidates
/// that compare equal keep their order.
fn order_candidates(v: Vec<Candidate>, literal: &String) -> (r: Vec<Candidate>)
    ensures
        candidate_views(r@) == sort_in_order(candidate_views(v@), candidate_order(literal@)),
{
    let ghost orig = candidate_views(v@);
    let mut rest = v;
    let mut sorted: Vec<Candidate> = Vec::new();
    let ghost mut done: int = 0;
    assert(orig.take(0) =~= Seq::<CandidateView>::empty());
    while rest.len() > 0
        invariant
            0 <= done <= orig.len(),
            candidate_views(rest@) == orig.skip(done),
            candidate_views(sorted@) == sort_in_order(orig.take(done), candidate_order(literal@)),
        decreases rest.len(),
    {
        let ghost before_rest = rest@;
        assert(candidate_views(before_rest).len() == before_rest.len());
        let x = rest.remove(0);
        let ghost xv = x@;
        proof {
            assert(orig.skip(done).len() > 0);
            assert(candidate_views(before_rest)[0] == xv);
            assert(orig.skip(done)[0] == orig[done]);
            assert forall|t: int| 0 <= t < candidate_views(rest@).len() implies #[trigger] candidate_views(rest@)[t] == orig.skip(done + 1)[t] by {
                assert(rest@[t] == before_rest[t + 1]);
                assert(candidate_views(before_rest)[t + 1] == orig.skip(done)[t + 1]);
            }
            assert(candidate_views(rest@) =~= orig.skip(done + 1));
        }
        let mut k: usize = 0;
        let x_literal = x.surface == *literal;
        while k < sorted.len() && comes_first(&sorted[k], &x, x_literal, literal)
            invariant
                k <= sorted@.len(),
                forall|t: int| 0 <= t < k ==> candidate_le(literal@, #[trigger] candidate_views(sorted@)[t], xv),
                xv == x@,
                x_literal == (xv.0 == literal@),
            decreases sorted.len() - k,
        {
            assert(candidate_views(sorted@)[k as int] == sorted@[k as int]@);
            k = k + 1;
        }
        proof {
            let sv = candidate_views(sorted@);
            assert forall|t: int| 0 <= t < k implies (candidate_order(literal@))(#[trigger] sv[t], xv) by {}
            if k < sorted@.len() {
                assert(sv[k as int] == sorted@[k as int]@);
            }
            lemma_insert_position(sv, xv, candidate_order(literal@), k as int);
            assert(orig.take(done + 1).drop_last() =~= orig.take(done));
            assert(orig.take(done + 1).last() == xv);
        }
        let ghost before = sorted@;
        sorted.insert(k, x);
        proof {
            assert(candidate_views(sorted@) =~= candidate_views(before).insert(k as int, xv));
            done = done + 1;
        }
    }
    assert(orig.take(done) =~= orig);
    sorted
}

/// Whether candidate `a` comes no later than `b` (whose surface is the
/// reading exactly when `b_literal`) for the reading `literal`.
fn comes_first(a: &Candidate, b: &Candidate, b_literal: bool, literal: &String) -> (r: bool)
    requires
        b_literal == (b.surface@ == literal@),
    ensures
        r == candidate_le(literal@, a@, b@),
{
    let a_literal = a.surface == *literal;
    (!a_literal && b_literal) || (a_literal == b_literal && a.cost <= b.cost)
}

/// A dictionary: its entries, kept in dictionary order.
#[derive(Clone, Debug)]
pub struct Dictionary {
    entries: Vec<DictionaryEntry>,
}

impl View for Dictionary {
    type V = Seq<DictionaryEntry>;

    closed spec fn view(&self) -> Seq<DictionaryEntry> {
        self.entries@
    }
}

/// Whether `a` comes strictly before `b` in code point order.
fn chars_before_exec(a: &Vec<char>, b: &Vec<char>) -> (r: bool)
    ensures
        r == chars_before(a@, b@),
{
    let mut i: usize = 0;
    assert(a@.skip(0) =~= a@);
    assert(b@.skip(0) =~= b@);
    while i < a.len() && i < b.len() && a[i] == b[i]
        invariant
            i <= a.len(),
            i <= b.len(),
            chars_before(a@, b@) == chars_before(a@.skip(i as int), b@.skip(i as int)),
        decreases a.len() - i,
    {
        assert(a@.skip(i as int).drop_first() =~= a@.skip(i + 1));
        assert(b@.skip(i as int).drop_first() =~= b@.skip(i + 1));
        i = i + 1;
    }
    if i == b.len() {
        false
    } else if i == a.len() {
        true
    } else {
        a[i] < b[i]
    }
}

impl Dictionary {
    /// Builds a dictionary whose entries are `entries` in dictionary order.
    pub fn new(entries: Vec<DictionaryEntry>) -> (d: Self)
        ensures
            d@ == sort_in_order(entries@, entry_order()),
            in_order(d@, entry_order()),
            d@.to_multiset() == entries@.to_multiset(),
    {
        proof {
            law_dictionary_order(entries@);
        }
        let mut sorted: Vec<DictionaryEntry> = Vec::new();
        let mut readings: Vec<Vec<char>> = Vec::new();
        let mut surfaces: Vec<Vec<char>> = Vec::new();
        for i in 0..entries.len()
            invariant
                sorted@ == sort_in_order(entries@.take(i as int), entry_order()),
                readings@.len() == sorted@.len(),
                surfaces@.len() == sorted@.len(),
                forall|t: int| 0 <= t < sorted@.len() ==> #[trigger] readings@[t]@ == sorted@[t].reading@,
                forall|t: int| 0 <= t < sorted@.len() ==> #[trigger] surfaces@[t]@ == sorted@[t].surface@,
        {
            let x = entries[i];
            let xr = chars_of(x.reading);
            let xs = chars_of(x.surface);
            let mut k: usize = 0;
            while k < sorted.len() && Self::comes_no_later(&readings[k], sorted[k].word_cost, &surfaces[k], &xr, x.word_cost, &xs)
                invariant
                    k <= sorted@.len(),
                    readings@.len() == sorted@.len(),
                    surfaces@.len() == sorted@.len(),
                    forall|t: int| 0 <= t < sorted@.len() ==> #[trigger] readings@[t]@ == sorted@[t].reading@,
                    forall|t: int| 0 <= t < sorted@.len() ==> #[trigger] surfaces@[t]@ == sorted@[t].surface@,
                    xr@ == x.reading@,
                    xs@ == x.surface@,
                    forall|t: int| 0 <= t < k ==> entry_le(#[trigger] sorted@[t], x),
                decreases sorted.len() - k,
            {
                k = k + 1;
            }
            proof {
                lemma_insert_position(sorted@, x, entry_order(), k as int);
                assert(entries@.take(i + 1).drop_last() =~= entries@.take(i as int));
            }
            let ghost old_readings = readings@;
            let ghost old_surfaces = surfaces@;
            let ghost old_sorted = sorted@;
            sorted.insert(k, x);
            readings.insert(k, xr);
            surfaces.insert(k, xs);
            proof {
                old_sorted.insert_ensures(k as int, x);
                old_readings.insert_ensures(k as int, xr);
                old_surfaces.insert_ensures(k as int, xs);
                assert forall|t: int| 0 <= t < sorted@.len() implies #[trigger] readings@[t]@ == sorted@[t].reading@ && surfaces@[t]@ == sorted@[t].surface@ by {
                    if t > k {
                        assert(readings@[t] == old_readings[t - 1]);
                        assert(surfaces@[t] == old_surfaces[t - 1]);
                        assert(sorted@[t] == old_sorted[t - 1]);
                    }
                }
            }
        }
        assert(entries@.take(entries@.len() as int) =~= entries@);
        Dictionary { entries: sorted }
    }

    /// The dictionary built from the bundled entries.
    pub fn bundled() -> (d: Self)
        ensures
            d@ == sort_in_order(bundled_entries(), entry_order()),
    {
        let entries = vec![
            DictionaryEntry { reading: "きょう", surface: "今日", word_cost: 10 },
            DictionaryEntry { reading: "こんにちは", surface: "こんにちは", word_cost: 5 },
            DictionaryEntry { reading: "にほん", surface: "日本", word_cost: 10 },
            DictionaryEntry { reading: "にほん", surface: "二本", word_cost: 20 },
            DictionaryEntry { reading: "は", surface: "は", word_cost: 1 },
            DictionaryEntry { reading: "わたし", surface: "私", word_cost: 10 },
        ];
        assert(entries@ =~= bundled_entries());
        Self::new(entries)
    }

    /// The number of entries.
    pub fn entry_count(&self) -> (n: usize)
        ensures
            n == self@.len(),
    {
        self.entries.len()
    }

    /// The lowest-cost segmentation of `reading` into dictionary entries and
    /// single characters read as themselves (a Viterbi search over the
    /// reading lattice); `None` for an empty reading.
    pub fn convert_best(&self, reading: &str) -> (result: Option<Conversion>)
        ensures
            conversion_view(result) == best_conversion(self@, reading@),
            result matches Some(c) ==> is_segmentation(self@, reading@, c@.1) && c@.2 == path_cost(
                c@.1,
            ),
            result matches Some(c) ==> forall|segs: Seq<SegmentView>|
                is_segmentation(self@, reading@, segs) ==> c@.2 <= path_cost(segs),
    {
        let chars = chars_of(reading);
        let n = chars.len();
        if n == 0 {
            return None;
        }
        let ghost entries = self@;
        let ghost cs = chars@;
        let m = self.entries.len();
        let mut readings: Vec<Vec<char>> = Vec::new();
        for j in 0..m
            invariant
                m == self@.len(),
                entries == self@,
                readings@.len() == j,
                forall|t: int| 0 <= t < j ==> #[trigger] readings@[t]@ == entries[t].reading@,
        {
            readings.push(chars_of(self.entries[j].reading));
        }

        let mut best: Vec<i32> = Vec::new();
        let mut back: Vec<Option<Step>> = Vec::new();
        best.push(0);
        back.push(None);
        for i in 0..n
            invariant
                n == cs.len(),
                best@ == initial_lattice(n as int).best.take(i + 1),
                back@ == initial_lattice(n as int).back.take(i + 1),
        {
            best.push(i32::MAX);
            back.push(None);
            assert(best@ =~= initial_lattice(n as int).best.take(i + 2));
            assert(back@ =~= initial_lattice(n as int).back.take(i + 2));
        }
        assert(best@ =~= initial_lattice(n as int).best);
        assert(back@ =~= initial_lattice(n as int).back);

        for start in 0..n
            invariant
                n == cs.len(),
                cs == chars@,
                m == entries.len(),
                entries == self@,
                readings@.len() == m,
                forall|t: int| 0 <= t < m ==> #[trigger] readings@[t]@ == entries[t].reading@,
                best@.len() == n + 1,
                back@.len() == n + 1,
                (Lattice { best: best@, back: back@ }) == lattice_upto(entries, cs, start as int),
                steps_valid(back@, n as int, m as int),
        {
            let path_cost = best[start];
            if path_cost != i32::MAX {
                let ghost l0 = Lattice { best: best@, back: back@ };
                for j in 0..m
                    invariant
                        n == cs.len(),
                        cs == chars@,
                        m == entries.len(),
                        entries == self@,
                        start < n,
                        readings@.len() == m,
                        forall|t: int| 0 <= t < m ==> #[trigger] readings@[t]@ == entries[t].reading@,
                        best@.len() == n + 1,
                        back@.len() == n + 1,
                        (Lattice { best: best@, back: back@ }) == relax_entries(
                            entries,
                            cs,
                            start as int,
                            path_cost,
                            l0,
                            j as int,
                        ),
                        steps_valid(back@, n as int, m as int),
                {
                    if reads_at_exec(&readings[j], &chars, start) {
                        let end = start + readings[j].len();
                        let total = saturating_add(path_cost, self.entries[j].word_cost);
                        update_path(&mut best, &mut back, end, total, Step { start, entry: Some(j) });
                    }
                }
                let total = saturating_add(path_cost, UNKNOWN_COST);
                update_path(&mut best, &mut back, start + 1, total, Step { start, entry: None });
            }
        }

        let total = best[n];
        if total == i32::MAX {
            return None;
        }
        let ghost fin = lattice_upto(entries, cs, n as int);
        let mut cursor = n;
        let mut steps: Vec<Step> = Vec::new();
        let ghost mut suffix: Seq<(Seq<char>, Seq<char>, i32)> = Seq::empty();
        while cursor > 0
            invariant
                cursor <= n,
                n == cs.len(),
                cs == chars@,
                cs == reading@,
                fin == lattice_upto(entries, cs, n as int),
                fin.best[n as int] == total,
                total != i32::MAX,
                m == entries.len(),
                entries == self@,
                back@ == fin.back,
                back@.len() == n + 1,
                steps_valid(back@, n as int, m as int),
                trace_back(entries, cs, fin.back, n as int) == (match trace_back(
                    entries,
                    cs,
                    fin.back,
                    cursor as int,
                ) {
                    Some(p) => Some(p + suffix),
                    None => None,
                }),
                suffix.len() == steps@.len(),
                forall|t: int|
                    0 <= t < steps@.len() ==> #[trigger] suffix[t] == step_segment(
                        entries,
                        cs,
                        steps@[steps@.len() - 1 - t],
                    ),
                forall|t: int|
                    0 <= t < steps@.len() ==> (#[trigger] steps@[t]).start < n && (
                    steps@[t].entry matches Some(j) ==> j < m),
            decreases cursor,
        {
            let step = match back[cursor] {
                Some(step) => step,
                None => {
                    return None;
                },
            };
            if step.start >= cursor {
                return None;
            }
            proof {
                let seg = step_segment(entries, cs, step);
                match trace_back(entries, cs, fin.back, step.start as int) {
                    Some(p) => {
                        assert(p.push(seg) + suffix =~= p + (seq![seg] + suffix));
                    },
                    None => {},
                }
                let old_suffix = suffix;
                suffix = seq![seg] + suffix;
                assert forall|t: int| 0 <= t < steps@.len() + 1 implies #[trigger] suffix[t] == step_segment(
                    entries,
                    cs,
                    steps@.push(step)[steps@.len() - t],
                ) by {
                    if t > 0 {
                        assert(suffix[t] == old_suffix[t - 1]);
                    }
                }
            }
            steps.push(step);
            cursor = step.start;
        }
        assert(suffix =~= Seq::<(Seq<char>, Seq<char>, i32)>::empty() + suffix);

        let mut segments: Vec<Segment> = Vec::new();
        let mut surface = String::new();
        let mut k = steps.len();
        while k > 0
            invariant
                k <= steps@.len(),
                n == cs.len(),
                cs == chars@,
                m == entries.len(),
                entries == self@,
                suffix.len() == steps@.len(),
                forall|t: int|
                    0 <= t < steps@.len() ==> #[trigger] suffix[t] == step_segment(
                        entries,
                        cs,
                        steps@[steps@.len() - 1 - t],
                    ),
                forall|t: int|
                    0 <= t < steps@.len() ==> (#[trigger] steps@[t]).start < n && (
                    steps@[t].entry matches Some(j) ==> j < m),
                segments@.map_values(|g: Segment| g@) == suffix.take(steps@.len() - k),
                surface@ == joined_surfaces(suffix.take(steps@.len() - k)),
            decreases k,
        {
            k = k - 1;
            let seg = self.make_segment(&chars, steps[k]);
            proof {
                let done = suffix.take(steps@.len() - k - 1);
                assert(suffix.take(steps@.len() - k) =~= done.push(suffix[steps@.len() - k - 1]));
                assert(done.push(suffix[steps@.len() - k - 1]).drop_last() =~= done);
                assert(suffix[steps@.len() - k - 1] == step_segment(entries, cs, steps@[k as int]));
                assert(segments@.push(seg).map_values(|g: Segment| g@) =~= segments@.map_values(
                    |g: Segment| g@,
                ).push(seg@));
            }
            surface.append(seg.surface.as_str());
            segments.push(seg);
        }
        assert(suffix.take(steps@.len() as int) =~= suffix);
        let conversion = Conversion { surface, segments, cost: total };
        proof {
            law_conversion_is_segmentation(entries, cs);
            assert forall|segs: Seq<SegmentView>| is_segmentation(entries, cs, segs) implies total
                <= path_cost(segs) by {
                law_conversion_is_cheapest(entries, cs, segs);
            }
        }
        Some(conversion)
    }

    /// The segment that `step` stands for.
    fn make_segment(&self, chars: &Vec<char>, step: Step) -> (seg: Segment)
        requires
            step.start < chars@.len(),
            step.entry matches Some(j) ==> j < self@.len(),
        ensures
            seg@ == step_segment(self@, chars@, step),
    {
        match step.entry {
            Some(j) => {
                let e = self.entries[j];
                Segment { reading: e.reading.to_owned(), surface: e.surface.to_owned(), cost: e.word_cost }
            },
            None => {
                let c = chars[step.start];
                let mut reading = String::new();
                push_char(&mut reading, c);
                let mut surface = String::new();
                push_char(&mut surface, c);
                assert(reading@ =~= seq![c]);
                assert(surface@ =~= seq![c]);
                Segment { reading, surface, cost: UNKNOWN_COST }
            },
        }
    }

    /// The candidates for the whole of `reading`: the entries read exactly
    /// so and the best segmented conversion, cheapest first, then the reading
    /// itself left unconverted.
    pub fn candidates(&self, reading: &str) -> (result: Vec<Candidate>)
        ensures
            candidate_views(result@) == sort_in_order(
                candidate_pool(self@, reading@),
                candidate_order(reading@),
            ),
            in_order(candidate_views(result@), candidate_order(reading@)),
            unconverted_last(candidate_views(result@), reading@),
            candidate_views(result@).to_multiset() == candidate_pool(self@, reading@).to_multiset(),
    {
        proof {
            law_candidates_in_order(self@, reading@);
        }
        let chars = chars_of(reading);
        let ghost entries = self@;
        let m = self.entries.len();
        let mut pool: Vec<Candidate> = Vec::new();
        for j in 0..m
            invariant
                m == entries.len(),
                entries == self@,
                chars@ == reading@,
                candidate_views(pool@) == exact_candidates(entries, reading@, j as int),
        {
            let e = self.entries[j];
            let r = chars_of(e.reading);
            if same_chars(r.as_slice(), chars.as_slice()) {
                let c = Candidate { surface: e.surface.to_owned(), cost: e.word_cost };
                assert(candidate_views(pool@.push(c)) =~= candidate_views(pool@).push(c@));
                pool.push(c);
            }
        }
        let ghost exact = candidate_views(pool@);
        if let Some(best) = self.convert_best(reading) {
            if !contains_surface(&pool, &best.surface) {
                let c = Candidate { surface: best.surface, cost: best.cost };
                assert(candidate_views(pool@.push(c)) =~= candidate_views(pool@).push(c@));
                pool.push(c);
            }
        }
        let literal = reading.to_owned();
        if !contains_surface(&pool, &literal) {
            let c = Candidate { surface: reading.to_owned(), cost: LITERAL_COST };
            assert(candidate_views(pool@.push(c)) =~= candidate_views(pool@).push(c@));
            pool.push(c);
        }
        order_candidates(pool, &literal)
    }

    /// Whether the entry (ar, ac, as_) comes no later than (br, bc, bs).
    fn comes_no_later(ar: &Vec<char>, ac: i32, as_: &Vec<char>, br: &Vec<char>, bc: i32, bs: &Vec<char>) -> (r: bool)
        ensures
            r == (chars_before(ar@, br@) || (ar@ == br@ && ac < bc) || (ar@ == br@ && ac == bc && !chars_before(bs@, as_@))),
    {
        if chars_before_exec(ar, br) {
            true
        } else if !same_chars(ar.as_slice(), br.as_slice()) {
            false
        } else if ac != bc {
            ac < bc
        } else {
            !chars_before_exec(bs, as_)
        }
    }
}

} // verus!
