//! Putting the results of all regions together.
use crate::region::Piece;
use crate::result::{found_in, Found, ScanResult};
use crate::sort::{
    law_sort_is_unique, law_sort_keeps_items, stable_sort, stable_sort_of, with_key, Keyed,
};
use vstd::prelude::*;

verus! {

impl Keyed for ScanResult {
    open spec fn key(&self) -> u64 {
        self.offset
    }

    fn key_of(&self) -> (k: u64) {
        self.offset
    }
}

/// Whether `r` begins inside `last`, or where it begins.
pub open spec fn covered(last: Found, r: Found) -> bool {
    r.offset == last.offset || r.offset < last.offset + last.length
}

/// A list without the strings that the one kept before them covers.
pub open spec fn uncovered(s: Seq<Found>) -> Seq<Found>
    decreases s.len(),
{
    if s.len() == 0 {
        s
    } else {
        let kept = uncovered(s.drop_last());
        if kept.len() > 0 && covered(kept.last(), s.last()) {
            kept
        } else {
            kept.push(s.last())
        }
    }
}

/// A list of results without those that the one kept before them covers.
pub open spec fn kept_of(s: Seq<ScanResult>) -> Seq<ScanResult>
    decreases s.len(),
{
    if s.len() == 0 {
        s
    } else {
        let kept = kept_of(s.drop_last());
        if kept.len() > 0 && covered(kept.last()@, s.last()@) {
            kept
        } else {
            kept.push(s.last())
        }
    }
}

/// Whether `out` is the list that `s` becomes: sorted by offset, without covered
/// strings.
pub open spec fn merged_list(out: Seq<ScanResult>, s: Seq<ScanResult>) -> bool {
    exists|t: Seq<ScanResult>| #[trigger] stable_sort_of(t, s) && out == kept_of(t)
}

/// Whether `out` is what becomes of `s`: sorted by offset, without covered strings.
pub open spec fn merged(out: Seq<Found>, s: Seq<ScanResult>) -> bool {
    exists|t: Seq<ScanResult>| #[trigger] stable_sort_of(t, s) && out == uncovered(found_in(t))
}

/// What the kept results say is what is kept of what the results say.
proof fn lemma_kept_says(s: Seq<ScanResult>)
    ensures
        found_in(kept_of(s)) == uncovered(found_in(s)),
    decreases s.len(),
{
    if s.len() > 0 {
        lemma_kept_says(s.drop_last());
        let kept = kept_of(s.drop_last());
        assert(found_in(s).drop_last() == found_in(s.drop_last()));
        assert(found_in(s).last() == s.last()@);
        if kept.len() > 0 {
            assert(found_in(kept).last() == kept.last()@);
        }
        assert(found_in(kept.push(s.last())) == found_in(kept).push(s.last()@));
    }
}

/// Drops the strings that the one kept before them covers.
pub fn drop_covered(v: Vec<ScanResult>) -> (kept: Vec<ScanResult>)
    ensures
        kept@ == kept_of(v@),
        found_in(kept@) == uncovered(found_in(v@)),
{
    let ghost all = v@;
    let mut kept: Vec<ScanResult> = Vec::new();
    assert(kept@ == kept_of(all.take(0)));
    for r in it: v
        invariant
            all == it.seq(),
            kept@ == kept_of(all.take(it.index())),
    {
        let ghost n = it.index();
        proof {
            assert(all.take(n + 1).drop_last() == all.take(n));
            assert(all.take(n + 1).last() == r);
        }
        let skip: bool = if kept.len() > 0 {
            let last = &kept[kept.len() - 1];
            r.offset <= last.offset || r.offset - last.offset < last.length as u64
        } else {
            false
        };
        if !skip {
            kept.push(r);
        }
    }
    proof {
        assert(all.take(all.len() as int) == all);
        lemma_kept_says(all);
    }
    kept
}

/// Sorts results by offset and drops the covered ones.
pub fn merge_results(v: Vec<ScanResult>) -> (out: Vec<ScanResult>)
    ensures
        merged_list(out@, v@),
        merged(found_in(out@), v@),
        separate(found_in(out@)),
{
    let t = stable_sort(v);
    proof {
        law_uncovered_is_separate(found_in(t@));
    }
    drop_covered(t)
}

/// Whether each string ends before the next one begins.
pub open spec fn separate(s: Seq<Found>) -> bool {
    forall|i: int, j: int|
        0 <= i < j < s.len() ==> (#[trigger] s[i]).offset < (#[trigger] s[j]).offset && s[i].offset
            + s[i].length <= s[j].offset
}

/// Whether offsets never go down and no length is negative.
pub open spec fn in_order(s: Seq<Found>) -> bool {
    &&& forall|i: int, j: int|
        0 <= i <= j < s.len() ==> (#[trigger] s[i]).offset <= (#[trigger] s[j]).offset
    &&& forall|i: int| 0 <= i < s.len() ==> (#[trigger] s[i]).length >= 0
}

/// Law: after covered strings are dropped, no two strings overlap and offsets
/// only go up.
pub proof fn law_uncovered_is_separate(s: Seq<Found>)
    requires
        forall|i: int| 0 <= i < s.len() ==> (#[trigger] s[i]).length >= 0,
    ensures
        separate(uncovered(s)),
    decreases s.len(),
{
    if s.len() > 0 {
        law_uncovered_is_separate(s.drop_last());
        lemma_uncovered_lengths(s.drop_last());
        let kept = uncovered(s.drop_last());
        let out = uncovered(s);
        if !(kept.len() > 0 && covered(kept.last(), s.last())) {
            assert forall|i: int, j: int| 0 <= i < j < out.len() implies (#[trigger] out[i]).offset
                < (#[trigger] out[j]).offset && out[i].offset + out[i].length <= out[j].offset by {
                if j == kept.len() {
                    if i < kept.len() - 1 {
                        assert(kept[i].offset < kept[kept.len() - 1].offset);
                    }
                }
            }
        }
    }
}

proof fn lemma_uncovered_lengths(s: Seq<Found>)
    requires
        forall|i: int| 0 <= i < s.len() ==> (#[trigger] s[i]).length >= 0,
    ensures
        forall|i: int| 0 <= i < uncovered(s).len() ==> (#[trigger] uncovered(s)[i]).length >= 0,
    decreases s.len(),
{
    if s.len() > 0 {
        lemma_uncovered_lengths(s.drop_last());
    }
}

/// Law: dropping covered strings keeps a list in which no two strings overlap as
/// it is.
pub proof fn law_separate_is_kept(s: Seq<Found>)
    requires
        separate(s),
    ensures
        uncovered(s) == s,
    decreases s.len(),
{
    if s.len() > 0 {
        let front = s.drop_last();
        law_separate_is_kept(front);
        if front.len() > 0 {
            assert(s[front.len() - 1].offset < s[s.len() - 1].offset);
            assert(front.last() == s[front.len() - 1]);
        }
        assert(s == front.push(s.last()));
    }
}

/// Law: every string that is dropped begins inside one that is kept.
pub proof fn law_dropped_is_covered(s: Seq<Found>, n: int)
    requires
        in_order(s),
        0 <= n < s.len(),
    ensures
        exists|k: int|
            0 <= k < uncovered(s).len() && (#[trigger] uncovered(s)[k] == s[n] || (uncovered(
                s,
            )[k].offset <= s[n].offset && covered(uncovered(s)[k], s[n]))),
    decreases s.len(),
{
    let front = s.drop_last();
    let kept = uncovered(front);
    let out = uncovered(s);
    if n == s.len() - 1 {
        if kept.len() > 0 && covered(kept.last(), s.last()) {
            lemma_uncovered_from(front, kept.len() - 1);
            let m = choose|m: int| 0 <= m < front.len() && kept[kept.len() - 1] == #[trigger] front[m];
            assert(s[m].offset <= s[n].offset);
            assert(out[kept.len() - 1].offset <= s[n].offset && covered(out[kept.len() - 1], s[n]));
        } else {
            assert(out[kept.len() as int] == s[n]);
        }
    } else {
        assert(in_order(front)) by {
            assert forall|i: int, j: int| 0 <= i <= j < front.len() implies (
            #[trigger] front[i]).offset <= (#[trigger] front[j]).offset by {
                assert(s[i].offset <= s[j].offset);
            }
            assert forall|i: int| 0 <= i < front.len() implies (#[trigger] front[i]).length >= 0 by {
                assert(s[i].length >= 0);
            }
        }
        law_dropped_is_covered(front, n);
        let k = choose|k: int|
            0 <= k < uncovered(front).len() && (#[trigger] uncovered(front)[k] == front[n] || (
            uncovered(front)[k].offset <= front[n].offset && covered(uncovered(front)[k], front[n])));
        assert(out[k] == kept[k]);
        assert(out[k] == s[n] || (out[k].offset <= s[n].offset && covered(out[k], s[n])));
    }
}

/// Law: nothing is kept that was not there.
pub proof fn law_kept_was_there(s: Seq<Found>, k: int)
    requires
        0 <= k < uncovered(s).len(),
    ensures
        s.contains(uncovered(s)[k]),
{
    lemma_uncovered_from(s, k);
    let m = choose|m: int| 0 <= m < s.len() && uncovered(s)[k] == #[trigger] s[m];
    assert(s[m] == uncovered(s)[k]);
}

proof fn lemma_uncovered_from(s: Seq<Found>, k: int)
    requires
        0 <= k < uncovered(s).len(),
    ensures
        exists|m: int| 0 <= m < s.len() && uncovered(s)[k] == #[trigger] s[m],
    decreases s.len(),
{
    let front = s.drop_last();
    let kept = uncovered(front);
    if k < kept.len() {
        lemma_uncovered_from(front, k);
        let m = choose|m: int| 0 <= m < front.len() && kept[k] == #[trigger] front[m];
        assert(uncovered(s)[k] == s[m]);
    } else {
        assert(uncovered(s)[k] == s[s.len() - 1]);
    }
}

/// Law: merging results that do not overlap sorts them and keeps every one.
pub proof fn law_merge_keeps_separate(out: Seq<Found>, s: Seq<ScanResult>, t: Seq<ScanResult>)
    requires
        merged(out, s),
        stable_sort_of(t, s),
        separate(found_in(t)),
    ensures
        out == found_in(t),
        t.to_multiset() == s.to_multiset(),
{
    let u = choose|u: Seq<ScanResult>| #[trigger]
        stable_sort_of(u, s) && out == uncovered(found_in(u));
    law_sort_is_unique(t, u, s);
    law_sort_keeps_items(t, s);
    law_separate_is_kept(found_in(t));
}

/// Law: merging what was merged before changes nothing.
pub proof fn law_merge_is_idempotent(
    out: Seq<ScanResult>,
    s: Seq<ScanResult>,
    again: Seq<Found>,
)
    requires
        merged(found_in(out), s),
        merged(again, out),
    ensures
        again == found_in(out),
{
    let u = choose|u: Seq<ScanResult>| #[trigger]
        stable_sort_of(u, s) && found_in(out) == uncovered(found_in(u));
    law_uncovered_is_separate(found_in(u));
    assert(stable_sort_of(out, out)) by {
        assert forall|i: int, j: int| 0 <= i <= j < out.len() implies (#[trigger] out[i]).key() <= (
        #[trigger] out[j]).key() by {
            if i < j {
                assert(found_in(out)[i].offset < found_in(out)[j].offset);
            }
        }
    }
    law_merge_keeps_separate(again, out, out);
}

proof fn lemma_one_with_key(s: Seq<ScanResult>, i: int)
    requires
        0 <= i < s.len(),
        forall|j: int| 0 <= j < s.len() && j != i ==> (#[trigger] s[j]).offset != s[i].offset,
    ensures
        with_key(s, s[i].offset) == seq![s[i]],
    decreases s.len(),
{
    let k = s[i].offset;
    let front = s.drop_last();
    reveal(Seq::filter);
    if i == s.len() - 1 {
        lemma_none_with_key(front, k);
    } else {
        assert(s[s.len() - 1].offset != k);
        lemma_one_with_key(front, i);
    }
}

proof fn lemma_none_with_key(s: Seq<ScanResult>, k: u64)
    requires
        forall|j: int| 0 <= j < s.len() ==> (#[trigger] s[j]).offset != k,
    ensures
        with_key(s, k) == Seq::<ScanResult>::empty(),
    decreases s.len(),
{
    reveal(Seq::filter);
    if s.len() > 0 {
        lemma_none_with_key(s.drop_last(), k);
    }
}

/// Law: the order in which results arrive does not matter. If results do not
/// overlap, merging them gives the same list in whatever order they come.
pub proof fn law_order_of_arrival_does_not_matter(
    all: Seq<ScanResult>,
    arrived: Seq<ScanResult>,
    out: Seq<Found>,
)
    requires
        separate(found_in(all)),
        arrived.to_multiset() == all.to_multiset(),
        merged(out, arrived),
    ensures
        out == found_in(all),
{
    lemma_separate_sorts(all, arrived);
    law_merge_keeps_separate(out, arrived, all);
}

/// A list without overlaps is what any arrangement of it sorts to.
proof fn lemma_separate_sorts(all: Seq<ScanResult>, arrived: Seq<ScanResult>)
    requires
        separate(found_in(all)),
        arrived.to_multiset() == all.to_multiset(),
    ensures
        stable_sort_of(all, arrived),
{
    assert forall|i: int, j: int| 0 <= i < j < all.len() implies (#[trigger] all[i]).offset < (
    #[trigger] all[j]).offset by {
        assert(found_in(all)[i].offset < found_in(all)[j].offset);
    }
    assert forall|k: u64| #[trigger] with_key(all, k) == with_key(arrived, k) by {
        if exists|i: int| 0 <= i < all.len() && (#[trigger] all[i]).offset == k {
            let i = choose|i: int| 0 <= i < all.len() && (#[trigger] all[i]).offset == k;
            let r = all[i];
            lemma_one_with_key(all, i);
            assert(all.contains(r));
            lemma_contains_count(all, r);
            lemma_contains_count(arrived, r);
            assert(arrived.contains(r));
            let m = choose|m: int| 0 <= m < arrived.len() && arrived[m] == r;
            assert forall|j: int| 0 <= j < arrived.len() && j != m implies (
            #[trigger] arrived[j]).offset != k by {
                if arrived[j].offset == k {
                    assert(arrived.contains(arrived[j]));
                    lemma_contains_count(all, arrived[j]);
                    lemma_contains_count(arrived, arrived[j]);
                    assert(all.contains(arrived[j]));
                    let x = choose|x: int| 0 <= x < all.len() && all[x] == arrived[j];
                    assert(x == i);
                    assert(arrived[j] == r);
                    lemma_twice(arrived, m, j);
                    lemma_once(all, i);
                }
            }
            lemma_one_with_key(arrived, m);
        } else {
            lemma_none_with_key(all, k);
            assert forall|j: int| 0 <= j < arrived.len() implies (#[trigger] arrived[j]).offset
                != k by {
                assert(arrived.contains(arrived[j]));
                lemma_contains_count(all, arrived[j]);
                lemma_contains_count(arrived, arrived[j]);
                assert(all.contains(arrived[j]));
                let x = choose|x: int| 0 <= x < all.len() && all[x] == arrived[j];
                assert(all[x].offset != k);
            }
            lemma_none_with_key(arrived, k);
        }
    }
}

/// Law: it does not matter either in which batches results arrive. A list that
/// holds what had arrived, merged with a further batch, is the list of all that has
/// arrived, if those do not overlap.
pub proof fn law_batches_do_not_matter(
    all: Seq<ScanResult>,
    arrived: Seq<ScanResult>,
    shown: Seq<ScanResult>,
    batch: Seq<ScanResult>,
    out: Seq<ScanResult>,
)
    requires
        shown.to_multiset() == arrived.to_multiset(),
        separate(found_in(all)),
        all.to_multiset() == (arrived + batch).to_multiset(),
        merged_list(out, shown + batch),
    ensures
        out == all,
        out.to_multiset() == (arrived + batch).to_multiset(),
{
    vstd::seq_lib::lemma_multiset_commutative(shown, batch);
    vstd::seq_lib::lemma_multiset_commutative(arrived, batch);
    assert((shown + batch).to_multiset() == all.to_multiset());
    let t = choose|t: Seq<ScanResult>| #[trigger]
        stable_sort_of(t, shown + batch) && out == kept_of(t);
    lemma_separate_sorts(all, shown + batch);
    law_sort_is_unique(t, all, shown + batch);
    lemma_separate_list_is_kept(all);
}

proof fn lemma_separate_list_is_kept(s: Seq<ScanResult>)
    requires
        separate(found_in(s)),
    ensures
        kept_of(s) == s,
    decreases s.len(),
{
    if s.len() > 0 {
        let front = s.drop_last();
        assert(found_in(front) == found_in(s).drop_last());
        lemma_separate_list_is_kept(front);
        if front.len() > 0 {
            assert(found_in(s)[front.len() - 1].offset < found_in(s)[s.len() - 1].offset);
            assert(front.last() == s[front.len() - 1]);
        }
        assert(s == front.push(s.last()));
    }
}

proof fn lemma_contains_count(s: Seq<ScanResult>, r: ScanResult)
    ensures
        s.contains(r) <==> s.to_multiset().count(r) > 0,
{
    s.to_multiset_ensures();
}

proof fn lemma_twice(s: Seq<ScanResult>, i: int, j: int)
    requires
        0 <= i < s.len(),
        0 <= j < s.len(),
        i != j,
        s[i] == s[j],
    ensures
        s.to_multiset().count(s[i]) >= 2,
{
    let rest = s.remove(i);
    let k = if j < i {
        j
    } else {
        j - 1
    };
    assert(rest[k] == s[i]);
    assert(rest.contains(s[i]));
    lemma_contains_count(rest, s[i]);
    s.to_multiset_ensures();
    assert(rest.to_multiset() =~= s.to_multiset().remove(s[i]));
}

proof fn lemma_once(s: Seq<ScanResult>, i: int)
    requires
        0 <= i < s.len(),
        forall|a: int, b: int|
            0 <= a < b < s.len() ==> (#[trigger] s[a]).offset < (#[trigger] s[b]).offset,
    ensures
        s.to_multiset().count(s[i]) == 1,
{
    let rest = s.remove(i);
    assert(!rest.contains(s[i])) by {
        if rest.contains(s[i]) {
            let k = choose|k: int| 0 <= k < rest.len() && rest[k] == s[i];
            let m = if k < i {
                k
            } else {
                k + 1
            };
            assert(s[m] == s[i]);
        }
    }
    assert(s.contains(s[i]));
    lemma_contains_count(s, s[i]);
    lemma_contains_count(rest, s[i]);
    s.to_multiset_ensures();
    assert(rest.to_multiset() =~= s.to_multiset().remove(s[i]));
}

/// What became of one region.
#[derive(Debug)]
pub enum RegionOutcome {
    /// It was scanned.
    Done { start: u64, output: Vec<Piece>, results: Vec<ScanResult> },
    /// Reading it failed.
    Failed { start: u64 },
}

impl Keyed for RegionOutcome {
    open spec fn key(&self) -> u64 {
        match self {
            RegionOutcome::Done { start, .. } => *start,
            RegionOutcome::Failed { .. } => u64::MAX,
        }
    }

    fn key_of(&self) -> (k: u64) {
        match self {
            RegionOutcome::Done { start, .. } => *start,
            RegionOutcome::Failed { .. } => u64::MAX,
        }
    }
}

/// What the outcomes up to the first failure hold together.
pub struct Collected {
    pub output: Seq<Piece>,
    pub results: Seq<ScanResult>,
    /// The region of the first failure.
    pub failure: Option<u64>,
}

/// What outcomes hold together, taken in order up to the first failure.
pub open spec fn collected(s: Seq<RegionOutcome>) -> Collected
    decreases s.len(),
{
    if s.len() == 0 {
        Collected { output: Seq::empty(), results: Seq::empty(), failure: None }
    } else {
        let c = collected(s.drop_last());
        if c.failure is Some {
            c
        } else {
            match s.last() {
                RegionOutcome::Done { start, output, results } => Collected {
                    output: c.output + output@,
                    results: c.results + results@,
                    failure: None,
                },
                RegionOutcome::Failed { start } => Collected { failure: Some(start), ..c },
            }
        }
    }
}

/// The scan of a file.
#[derive(Debug)]
pub struct FileScan {
    /// What is printed.
    pub output: Vec<Piece>,
    /// The strings, or the region whose reading failed.
    pub results: Result<Vec<ScanResult>, u64>,
}

/// Puts the outcomes of a file's regions together: in the order of their starts,
/// failures last. What was scanned is printed; one failure fails the file.
pub fn scan_file(outcomes: Vec<RegionOutcome>) -> (scan: FileScan)
    ensures
        exists|t: Seq<RegionOutcome>| #[trigger]
            stable_sort_of(t, outcomes@) && ({
                let c = collected(t);
                &&& scan.output@ == c.output
                &&& match scan.results {
                    Ok(v) => c.failure is None && merged(found_in(v@), c.results) && separate(
                        found_in(v@),
                    ),
                    Err(start) => c.failure == Some(start),
                }
            }),
{
    let sorted_outcomes = stable_sort(outcomes);
    let ghost t = sorted_outcomes@;
    let mut output: Vec<Piece> = Vec::new();
    let mut all: Vec<ScanResult> = Vec::new();
    let mut failure: Option<u64> = None;
    assert(output@ == collected(t.take(0)).output);
    assert(all@ == collected(t.take(0)).results);
    for outcome in it: sorted_outcomes
        invariant
            t == it.seq(),
            output@ == collected(t.take(it.index())).output,
            all@ == collected(t.take(it.index())).results,
            failure == collected(t.take(it.index())).failure,
    {
        let ghost n = it.index();
        proof {
            assert(t.take(n + 1).drop_last() == t.take(n));
            assert(t.take(n + 1).last() == outcome);
        }
        if failure.is_none() {
            match outcome {
                RegionOutcome::Done { start: _, output: mut more, results: mut found } => {
                    output.append(&mut more);
                    all.append(&mut found);
                },
                RegionOutcome::Failed { start } => {
                    failure = Some(start);
                },
            }
        }
    }
    assert(t.take(t.len() as int) == t);
    match failure {
        Some(start) => FileScan { output, results: Err(start) },
        None => {
            let results = merge_results(all);
            FileScan { output, results: Ok(results) }
        },
    }
}

/// Whether `r` begins where `earlier` does, or at one of its bytes.
pub open spec fn begins_inside(r: Found, earlier: Found) -> bool {
    r.offset == earlier.offset || earlier.offset <= r.offset < earlier.offset + earlier.length
}

/// Whether something in front of `n` is kept that the `n`-th string begins inside of.
pub open spec fn inside_an_earlier(s: Seq<Found>, kept: Seq<Found>, n: int) -> bool {
    exists|m: int|
        0 <= m < n && kept.contains(#[trigger] s[m]) && begins_inside(s[n], s[m])
}

/// Law: of strings in the order of their offsets, each is kept, or begins inside one in front of
/// it that is kept; the first is always kept.
pub proof fn law_dropped_begins_inside_an_earlier(s: Seq<Found>, n: int)
    requires
        in_order(s),
        0 <= n < s.len(),
    ensures
        uncovered(s).contains(s[n]) || inside_an_earlier(s, uncovered(s), n),
        uncovered(s).len() > 0 && uncovered(s)[0] == s[0],
    decreases s.len(),
{
    let front = s.drop_last();
    let kept = uncovered(front);
    let out = uncovered(s);
    if front.len() > 0 {
        assert(in_order(front)) by {
            assert forall|i: int, j: int| 0 <= i <= j < front.len() implies (
            #[trigger] front[i]).offset <= (#[trigger] front[j]).offset by {
                assert(s[i].offset <= s[j].offset);
            }
            assert forall|i: int| 0 <= i < front.len() implies (#[trigger] front[i]).length >= 0 by {
                assert(s[i].length >= 0);
            }
        }
        law_dropped_begins_inside_an_earlier(front, if n < front.len() {
            n
        } else {
            0
        });
    }
    assert forall|f: Found| kept.contains(f) implies out.contains(f) by {
        let k = choose|k: int| 0 <= k < kept.len() && kept[k] == f;
        assert(out[k] == f);
    }
    if n < front.len() {
        assert(front[n] == s[n]);
        if !kept.contains(s[n]) {
            let m = choose|m: int|
                0 <= m < n && kept.contains(#[trigger] front[m]) && begins_inside(
                    front[n],
                    front[m],
                );
            assert(s[m] == front[m]);
        }
    } else if kept.len() > 0 && covered(kept.last(), s.last()) {
        lemma_uncovered_from(front, kept.len() - 1);
        let m = choose|m: int| 0 <= m < front.len() && kept[kept.len() - 1] == #[trigger] front[m];
        assert(s[m] == front[m]);
        assert(kept.contains(front[m]));
        assert(s[m].offset <= s[n].offset);
    } else {
        assert(out[kept.len() as int] == s[n]);
    }
}

/// Law: what outcomes hold together is what the first of them hold, followed by what the others
/// hold, if none of the first failed.
pub proof fn law_outcomes_are_joined(a: Seq<RegionOutcome>, b: Seq<RegionOutcome>)
    requires
        collected(a).failure is None,
    ensures
        collected(a + b).output == collected(a).output + collected(b).output,
        collected(a + b).results == collected(a).results + collected(b).results,
        collected(a + b).failure == collected(b).failure,
    decreases b.len(),
{
    if b.len() == 0 {
        assert(a + b == a);
    } else {
        law_outcomes_are_joined(a, b.drop_last());
        assert((a + b).drop_last() == a + b.drop_last());
        assert((a + b).last() == b.last());
    }
}

/// Law: one outcome holds its report and its strings, or its failure.
pub proof fn law_outcome_alone(o: RegionOutcome)
    ensures
        match o {
            RegionOutcome::Done { start, output, results } => collected(seq![o]) == (Collected {
                output: output@,
                results: results@,
                failure: None,
            }),
            RegionOutcome::Failed { start } => collected(seq![o]).failure == Some(start),
        },
{
    let none = Seq::<RegionOutcome>::empty();
    assert(seq![o].drop_last() == none);
    assert(collected(none).output == Seq::<Piece>::empty());
    match o {
        RegionOutcome::Done { start, output, results } => {
            assert(Seq::<Piece>::empty() + output@ == output@);
            assert(Seq::<ScanResult>::empty() + results@ == results@);
        },
        RegionOutcome::Failed { start } => {},
    }
}

/// Law: outcomes fail together if and only if one of them failed.
pub proof fn law_one_failure_fails(s: Seq<RegionOutcome>)
    ensures
        collected(s).failure is Some <==> exists|i: int|
            0 <= i < s.len() && #[trigger] s[i] is Failed,
    decreases s.len(),
{
    if s.len() > 0 {
        let front = s.drop_last();
        law_one_failure_fails(front);
        if collected(front).failure is Some {
            let i = choose|i: int| 0 <= i < front.len() && #[trigger] front[i] is Failed;
            assert(s[i] is Failed);
        } else if s.last() is Failed {
            assert(s[s.len() - 1] is Failed);
        } else {
            assert forall|i: int| 0 <= i < s.len() implies !(#[trigger] s[i] is Failed) by {
                if i < front.len() {
                    assert(!(front[i] is Failed));
                }
            }
        }
    }
}

/// Law: it is the first failure that is named, and what was scanned in front of it is kept.
pub proof fn law_first_failure_is_named(a: Seq<RegionOutcome>, start: u64, b: Seq<RegionOutcome>)
    requires
        collected(a).failure is None,
    ensures
        collected(a.push(RegionOutcome::Failed { start }) + b).failure == Some(start),
        collected(a.push(RegionOutcome::Failed { start }) + b).output == collected(a).output,
    decreases b.len(),
{
    let f = a.push(RegionOutcome::Failed { start });
    if b.len() == 0 {
        assert(f + b == f);
        assert(f.drop_last() == a);
    } else {
        law_first_failure_is_named(a, start, b.drop_last());
        assert((f + b).drop_last() == f + b.drop_last());
    }
}

/// Law: outcomes are put in the order in which their regions begin, those that failed behind all
/// others.
pub proof fn law_outcomes_go_by_their_start(
    start: u64,
    output: Vec<Piece>,
    results: Vec<ScanResult>,
    other: u64,
)
    ensures
        (RegionOutcome::Done { start, output, results }).key() == start,
        (RegionOutcome::Failed { start: other }).key() >= start,
{
}

} // verus!
