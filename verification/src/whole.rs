//! A file, or a range of it, as the sum of its regions.
use crate::bounds::smaller;
use crate::merge::{
    collected, law_batches_do_not_matter, law_order_of_arrival_does_not_matter,
    law_separate_is_kept, merged, merged_list, separate, uncovered, RegionOutcome,
};
use crate::region::{asked_for, region_at};
use crate::result::{found_in, Found, ScanResult};
use crate::runs::{
    lemma_string_stop, lemma_string_stop_is, lemma_strings_join, printable, starts_string,
    string_from, string_stop, strings_between, strings_of,
};
use crate::scanner::{region_strings, visible};
use crate::sort::{law_sort_is_unique, stable_sort_of, Keyed};
use vstd::prelude::*;

verus! {

/// Where the regions of the range from `lo` up to but without `hi` begin.
pub open spec fn starts_of(lo: int, hi: int, region_size: int) -> Seq<int>
    decreases (if lo < hi { hi - lo } else { 0 }),
{
    if lo >= hi || region_size <= 0 {
        Seq::empty()
    } else {
        seq![lo] + starts_of(lo + region_size, hi, region_size)
    }
}

/// Numbers as integers.
pub open spec fn ints(v: Seq<u64>) -> Seq<int> {
    v.map_values(|n: u64| n as int)
}

/// Where the regions of a range begin.
pub fn region_starts(range_start: u64, range_end: u64, region_size: u64) -> (v: Vec<u64>)
    requires
        region_size > 0,
    ensures
        ints(v@) == starts_of(range_start as int, range_end as int, region_size as int),
{
    let mut v: Vec<u64> = Vec::new();
    let mut at: u64 = range_start;
    let ghost all = starts_of(range_start as int, range_end as int, region_size as int);
    assert(ints(v@) + starts_of(at as int, range_end as int, region_size as int) == all);
    while at < range_end
        invariant
            region_size > 0,
            all == starts_of(range_start as int, range_end as int, region_size as int),
            all == ints(v@) + starts_of(at as int, range_end as int, region_size as int),
        decreases range_end - at,
    {
        let ghost before = v@;
        let ghost rest = starts_of(at + region_size, range_end as int, region_size as int);
        v.push(at);
        proof {
            assert(ints(v@) == ints(before).push(at as int));
            assert(ints(v@) + rest == ints(before) + (seq![at as int] + rest));
        }
        if range_end - at <= region_size {
            assert(rest == Seq::<int>::empty());
            assert(ints(v@) + rest == ints(v@));
            return v;
        }
        at = at + region_size;
    }
    assert(ints(v@) + Seq::<int>::empty() == ints(v@));
    v
}

/// The smallest number of parts of `size` that hold `n`.
pub open spec fn parts(n: int, size: int) -> int {
    (n + size - 1) / size
}

/// How many regions a range has.
pub fn region_count(range_len: u64, region_size: u64) -> (n: u64)
    requires
        region_size > 0,
    ensures
        n == parts(range_len as int, region_size as int),
{
    if range_len == 0 {
        proof {
            assert((0 + region_size - 1) / (region_size as int) == 0) by (nonlinear_arith)
                requires
                    region_size > 0,
            ;
        }
        0
    } else {
        proof {
            assert((range_len - 1) / (region_size as int) + 1 == (range_len + region_size - 1) / (
            region_size as int)) by (nonlinear_arith)
                requires
                    region_size > 0,
                    range_len > 0,
            ;
            assert((range_len - 1) / (region_size as int) <= range_len - 1) by (nonlinear_arith)
                requires
                    region_size > 0,
                    range_len > 0,
            ;
        }
        (range_len - 1) / region_size + 1
    }
}

/// Law: the parts hold all, and one fewer would not; there is none of nothing.
pub proof fn law_parts_hold_all(n: int, size: int)
    requires
        0 <= n,
        0 < size,
    ensures
        0 <= parts(n, size) <= n,
        parts(n, size) * size >= n,
        parts(n, size) > 0 ==> (parts(n, size) - 1) * size < n,
        n == 0 ==> parts(n, size) == 0,
{
    let p = parts(n, size);
    assert(0 <= p <= n && p * size >= n && (p - 1) * size < n && (n == 0 ==> p == 0))
        by (nonlinear_arith)
        requires
            0 <= n,
            0 < size,
            p == (n + size - 1) / size,
    ;
}

/// Law: a range has as many regions as parts of their size hold it.
pub proof fn law_region_count(lo: int, hi: int, region_size: int)
    requires
        lo <= hi,
        region_size > 0,
    ensures
        starts_of(lo, hi, region_size).len() == parts(hi - lo, region_size),
    decreases hi - lo,
{
    if lo == hi {
        assert((0 + region_size - 1) / region_size == 0) by (nonlinear_arith)
            requires
                region_size > 0,
        ;
    } else if hi - lo <= region_size {
        assert(starts_of(lo + region_size, hi, region_size).len() == 0);
        assert((hi - lo + region_size - 1) / region_size == 1) by (nonlinear_arith)
            requires
                0 < hi - lo <= region_size,
        ;
    } else {
        law_region_count(lo + region_size, hi, region_size);
        assert((hi - lo + region_size - 1) / region_size == (hi - (lo + region_size) + region_size
            - 1) / region_size + 1) by (nonlinear_arith)
            requires
                region_size > 0,
        ;
    }
}

/// The strings of all regions of a range, one region after the other. Nothing
/// from `hi` on is looked at.
pub open spec fn range_strings(
    data: Seq<u8>,
    lo: u64,
    hi: u64,
    region_size: u64,
    overlap: u64,
    min_string: nat,
    json: bool,
) -> Seq<Found>
    decreases hi - lo,
{
    if lo >= hi || region_size == 0 {
        Seq::empty()
    } else {
        let first = region_strings(data, region_at(lo, region_size, hi, overlap), min_string, json);
        if lo + region_size >= hi {
            first
        } else {
            first + range_strings(
                data,
                (lo + region_size) as u64,
                hi,
                region_size,
                overlap,
                min_string,
                json,
            )
        }
    }
}

/// Whether `f` is a string of `d`, or the front part of one.
pub open spec fn string_or_front(d: Seq<u8>, f: Found) -> bool {
    &&& starts_string(d, f.offset)
    &&& 0 <= f.length
    &&& f.offset + f.length <= string_stop(d, f.offset)
}

/// Whether all of `s` are strings of `d` or front parts of them, beginning from
/// `lo` up to but without `hi`, one after the other.
pub open spec fn strings_in_order(s: Seq<Found>, d: Seq<u8>, lo: int, hi: int) -> bool {
    &&& forall|i: int|
        0 <= i < s.len() ==> string_or_front(d, #[trigger] s[i]) && lo <= s[i].offset < hi
    &&& forall|i: int, j: int|
        0 <= i < j < s.len() ==> (#[trigger] s[i]).offset < (#[trigger] s[j]).offset
}

proof fn lemma_stop_before_next(d: Seq<u8>, a: int, b: int)
    requires
        starts_string(d, a),
        starts_string(d, b),
        a < b,
    ensures
        string_stop(d, a) < b,
{
    lemma_string_stop(d, a);
    if string_stop(d, a) >= b {
        assert(printable(d[b - 1]));
    }
}

proof fn lemma_in_order_is_separate(s: Seq<Found>, d: Seq<u8>, lo: int, hi: int)
    requires
        strings_in_order(s, d, lo, hi),
    ensures
        separate(s),
{
    assert forall|i: int, j: int| 0 <= i < j < s.len() implies (#[trigger] s[i]).offset < (
    #[trigger] s[j]).offset && s[i].offset + s[i].length <= s[j].offset by {
        lemma_stop_before_next(d, s[i].offset, s[j].offset);
    }
}

proof fn lemma_filter_in_order(s: Seq<Found>, d: Seq<u8>, lo: int, hi: int, json: bool)
    requires
        strings_in_order(s, d, lo, hi),
    ensures
        strings_in_order(s.filter(|f: Found| asked_for(json, f)), d, lo, hi),
    decreases s.len(),
{
    let q = |f: Found| asked_for(json, f);
    reveal(Seq::filter);
    if s.len() > 0 {
        let front = s.drop_last();
        assert(strings_in_order(front, d, lo, s.last().offset)) by {
            assert forall|i: int| 0 <= i < front.len() implies string_or_front(
                d,
                #[trigger] front[i],
            ) && lo <= front[i].offset < s.last().offset by {
                assert(s[i].offset < s[s.len() - 1].offset);
            }
        }
        lemma_filter_in_order(front, d, lo, s.last().offset, json);
    }
}

/// The part of the file up to `cut` has the same strings as the whole, cut off.
proof fn lemma_cut_stop(d: Seq<u8>, cut: int, a: int)
    requires
        0 <= a < cut <= d.len(),
    ensures
        starts_string(d.take(cut), a) == starts_string(d, a),
        string_stop(d.take(cut), a) == smaller(string_stop(d, a), cut),
{
    lemma_string_stop(d, a);
    let e = smaller(string_stop(d, a), cut);
    let t = d.take(cut);
    assert forall|k: int| a <= k < e implies printable(#[trigger] t[k]) by {
        assert(printable(d[k]));
    }
    lemma_string_stop_is(t, a, e);
}

proof fn lemma_cut_strings_in_order(d: Seq<u8>, cut: int, lo: int, hi: int, min: nat)
    requires
        0 <= lo,
        hi <= cut <= d.len(),
    ensures
        strings_in_order(strings_between(d.take(cut), lo, hi, min), d, lo, hi),
    decreases hi - lo,
{
    if lo < hi {
        lemma_cut_strings_in_order(d, cut, lo, hi - 1, min);
        lemma_cut_stop(d, cut, hi - 1);
        lemma_string_stop(d.take(cut), hi - 1);
    }
}

/// If no string of a stretch is cut short, cutting changes nothing of what is listed.
proof fn lemma_cut_strings_same(d: Seq<u8>, cut: int, lo: int, hi: int, min: nat, json: bool)
    requires
        0 <= lo,
        hi <= cut <= d.len(),
        forall|a: int|
            lo <= a < hi && #[trigger] starts_string(d, a) ==> not_cut(d, cut, a, min, json),
    ensures
        strings_between(d.take(cut), lo, hi, min).filter(|f: Found| asked_for(json, f))
            == strings_between(d, lo, hi, min).filter(|f: Found| asked_for(json, f)),
    decreases hi - lo,
{
    let q = |f: Found| asked_for(json, f);
    let t = d.take(cut);
    reveal(Seq::filter);
    if lo < hi {
        let a = hi - 1;
        lemma_cut_strings_same(d, cut, lo, a, min, json);
        lemma_cut_stop(d, cut, a);
        lemma_string_stop(d, a);
        if starts_string(d, a) {
            let e = string_stop(d, a);
            let f = string_from(d, a);
            let g = string_from(t, a);
            let whole = strings_between(d, lo, a, min);
            let seen = strings_between(t, lo, a, min);
            assert(whole.push(f).drop_last() == whole);
            assert(seen.push(g).drop_last() == seen);
            assert(f.length == e - a);
            assert(g.length == smaller(e, cut) - a);
            if e <= cut {
                assert(t.subrange(a, e) == d.subrange(a, e));
            }
        }
    }
}

proof fn lemma_filter_same(s: Seq<Found>, t: Seq<Found>, json: bool)
    ensures
        (s + t).filter(|f: Found| asked_for(json, f)) == s.filter(|f: Found| asked_for(json, f))
            + t.filter(|f: Found| asked_for(json, f)),
{
    Seq::filter_distributes_over_add(s, t, |f: Found| asked_for(json, f));
}

proof fn lemma_range_in_order(
    data: Seq<u8>,
    lo: u64,
    hi: u64,
    region_size: u64,
    overlap: u64,
    min: nat,
    json: bool,
)
    requires
        hi <= data.len(),
        region_size > 0,
    ensures
        strings_in_order(
            range_strings(data, lo, hi, region_size, overlap, min, json),
            data.take(hi as int),
            lo as int,
            hi as int,
        ),
    decreases hi - lo,
{
    if lo < hi {
        let d = data.take(hi as int);
        let region = region_at(lo, region_size, hi, overlap);
        let cut = region.string_end as int;
        let seen = visible(data, region);
        assert(seen == d.take(cut));
        lemma_cut_strings_in_order(d, cut, lo as int, region.end as int, min);
        lemma_filter_in_order(
            strings_between(seen, lo as int, region.end as int, min),
            d,
            lo as int,
            region.end as int,
            json,
        );
        if lo + region_size < hi {
            lemma_range_in_order(
                data,
                (lo + region_size) as u64,
                hi,
                region_size,
                overlap,
                min,
                json,
            );
        }
    }
}

/// Law: the strings of the regions of a range do not overlap, and come in the
/// order of their offsets. So merging them keeps every one.
pub proof fn law_regions_do_not_overlap(
    data: Seq<u8>,
    lo: u64,
    hi: u64,
    region_size: u64,
    overlap: u64,
    min_string: nat,
    json: bool,
)
    requires
        hi <= data.len(),
        region_size > 0,
    ensures
        ({
            let all = range_strings(data, lo, hi, region_size, overlap, min_string, json);
            &&& separate(all)
            &&& uncovered(all) == all
        }),
{
    let all = range_strings(data, lo, hi, region_size, overlap, min_string, json);
    lemma_range_in_order(data, lo, hi, region_size, overlap, min_string, json);
    lemma_in_order_is_separate(all, data.take(hi as int), lo as int, hi as int);
    law_separate_is_kept(all);
}

/// Whether a string is long enough and asked for.
pub open spec fn listed(f: Found, min_string: nat, json: bool) -> bool {
    f.length >= min_string && asked_for(json, f)
}

/// Whether the string of `d` that begins at `a` is not cut short by a reader who stops
/// at `cut`; or is listed neither whole nor cut.
pub open spec fn not_cut(d: Seq<u8>, cut: int, a: int, min_string: nat, json: bool) -> bool {
    ||| string_stop(d, a) <= cut
    ||| !listed(string_from(d, a), min_string, json) && !listed(
        string_from(d.take(cut), a),
        min_string,
        json,
    )
}

/// Whether no region of a range cuts one of its strings short.
pub open spec fn nothing_cut(
    d: Seq<u8>,
    lo: u64,
    hi: u64,
    region_size: u64,
    overlap: u64,
    min_string: nat,
    json: bool,
) -> bool
    decreases hi - lo,
{
    if lo >= hi || region_size == 0 {
        true
    } else {
        let region = region_at(lo, region_size, hi, overlap);
        &&& forall|a: int|
            lo <= a < region.end && #[trigger] starts_string(d, a) ==> not_cut(
                d,
                region.string_end as int,
                a,
                min_string,
                json,
            )
        &&& lo + region_size < hi ==> nothing_cut(
            d,
            (lo + region_size) as u64,
            hi,
            region_size,
            overlap,
            min_string,
            json,
        )
    }
}

/// Law: if no region cuts a string short, the regions of a range have its strings
/// among them, whole, whatever size the regions have.
pub proof fn law_region_size_does_not_matter(
    data: Seq<u8>,
    lo: u64,
    hi: u64,
    region_size: u64,
    overlap: u64,
    min_string: nat,
    json: bool,
)
    requires
        hi <= data.len(),
        region_size > 0,
        nothing_cut(data.take(hi as int), lo, hi, region_size, overlap, min_string, json),
    ensures
        range_strings(data, lo, hi, region_size, overlap, min_string, json) == strings_between(
            data.take(hi as int),
            lo as int,
            hi as int,
            min_string,
        ).filter(|f: Found| asked_for(json, f)),
    decreases hi - lo,
{
    let d = data.take(hi as int);
    if lo >= hi {
        reveal(Seq::filter);
    } else {
        let region = region_at(lo, region_size, hi, overlap);
        let cut = region.string_end as int;
        assert(visible(data, region) == d.take(cut));
        lemma_cut_strings_same(d, cut, lo as int, region.end as int, min_string, json);
        if lo + region_size < hi {
            let next = (lo + region_size) as u64;
            law_region_size_does_not_matter(
                data,
                next,
                hi,
                region_size,
                overlap,
                min_string,
                json,
            );
            lemma_strings_join(d, lo as int, next as int, hi as int, min_string);
            lemma_filter_same(
                strings_between(d, lo as int, next as int, min_string),
                strings_between(d, next as int, hi as int, min_string),
                json,
            );
        }
    }
}

/// Law: strings that are longer than the overlap by no more than a byte are never cut
/// short.
pub proof fn law_short_strings_are_not_cut(
    d: Seq<u8>,
    lo: u64,
    hi: u64,
    region_size: u64,
    overlap: u64,
    min_string: nat,
    json: bool,
)
    requires
        hi == d.len(),
        forall|a: int| #[trigger] starts_string(d, a) ==> string_stop(d, a) - a <= overlap + 1,
    ensures
        nothing_cut(d, lo, hi, region_size, overlap, min_string, json),
    decreases hi - lo,
{
    if lo < hi && region_size > 0 {
        let region = region_at(lo, region_size, hi, overlap);
        assert forall|a: int| lo <= a < region.end && #[trigger] starts_string(d, a) implies not_cut(
            d,
            region.string_end as int,
            a,
            min_string,
            json,
        ) by {
            lemma_string_stop(d, a);
        }
        if lo + region_size < hi {
            law_short_strings_are_not_cut(
                d,
                (lo + region_size) as u64,
                hi,
                region_size,
                overlap,
                min_string,
                json,
            );
        }
    }
}

/// Law: a file's strings are exactly its longest stretches of printable bytes
/// with at least `min_string` bytes.
pub proof fn law_strings_are_the_printable_stretches(d: Seq<u8>, min_string: nat, f: Found)
    ensures
        strings_of(d, min_string).contains(f) <==> {
            &&& starts_string(d, f.offset)
            &&& f == string_from(d, f.offset)
            &&& f.length >= min_string
        },
{
    lemma_stretches(d, d.len() as int, min_string, f);
}

proof fn lemma_stretches(d: Seq<u8>, hi: int, min_string: nat, f: Found)
    requires
        0 <= hi <= d.len(),
    ensures
        strings_between(d, 0, hi, min_string).contains(f) <==> {
            &&& starts_string(d, f.offset)
            &&& f.offset < hi
            &&& f == string_from(d, f.offset)
            &&& f.length >= min_string
        },
    decreases hi,
{
    let all = strings_between(d, 0, hi, min_string);
    if hi > 0 {
        let a = hi - 1;
        lemma_stretches(d, a, min_string, f);
        lemma_string_stop(d, a);
        let before = strings_between(d, 0, a, min_string);
        if starts_string(d, a) && string_stop(d, a) - a >= min_string {
            assert(all == before.push(string_from(d, a)));
            assert(all[before.len() as int] == string_from(d, a));
            if before.contains(f) {
                let i = choose|i: int| 0 <= i < before.len() && before[i] == f;
                assert(all[i] == f);
            }
            if all.contains(f) && !before.contains(f) {
                let i = choose|i: int| 0 <= i < all.len() && all[i] == f;
                assert(i == before.len() || before[i] == f);
                assert(f == string_from(d, a));
            }
        }
    }
}

/// Whether `outcomes` are those of the regions of a range, one after the other,
/// each with the strings that its region owns.
pub open spec fn scanned(
    outcomes: Seq<RegionOutcome>,
    data: Seq<u8>,
    lo: u64,
    hi: u64,
    region_size: u64,
    overlap: u64,
    min_string: nat,
    json: bool,
) -> bool {
    let starts = starts_of(lo as int, hi as int, region_size as int);
    &&& outcomes.len() == starts.len()
    &&& forall|i: int|
        0 <= i < outcomes.len() ==> (#[trigger] outcomes[i] matches RegionOutcome::Done {
            start,
            output,
            results,
        } && start == starts[i] && found_in(results@) == region_strings(
            data,
            region_at(start, region_size, hi, overlap),
            min_string,
            json,
        ))
}

/// Whether all outcomes are scans.
spec fn all_done(s: Seq<RegionOutcome>) -> bool {
    forall|i: int| 0 <= i < s.len() ==> (#[trigger] s[i]) is Done
}

proof fn lemma_collected_front(s: Seq<RegionOutcome>)
    requires
        s.len() > 0,
        all_done(s),
    ensures
        collected(s).failure is None,
        collected(s).results == s[0]->results@ + collected(s.skip(1)).results,
    decreases s.len(),
{
    let front = s.drop_last();
    if s.len() == 1 {
        assert(front == Seq::<RegionOutcome>::empty());
        assert(s.skip(1) == Seq::<RegionOutcome>::empty());
        assert(collected(s).results == s[0]->results@);
    } else {
        assert(all_done(front)) by {
            assert forall|i: int| 0 <= i < front.len() implies (#[trigger] front[i]) is Done by {
                assert(s[i] is Done);
            }
        }
        lemma_collected_front(front);
        let tail = s.skip(1);
        assert(tail.drop_last() == front.skip(1));
        assert(tail.last() == s.last());
        assert(s[s.len() - 1] is Done);
        if front.skip(1).len() > 0 {
            assert(all_done(front.skip(1))) by {
                assert forall|i: int| 0 <= i < front.skip(1).len() implies (
                #[trigger] front.skip(1)[i]) is Done by {
                    assert(s[i + 1] is Done);
                }
            }
            lemma_collected_front(front.skip(1));
        }
        assert(collected(s).results == s[0]->results@ + collected(tail).results);
    }
}

proof fn lemma_starts_in_range(lo: int, hi: int, region_size: int)
    requires
        region_size > 0,
    ensures
        forall|i: int|
            0 <= i < starts_of(lo, hi, region_size).len() ==> lo <= #[trigger] starts_of(
                lo,
                hi,
                region_size,
            )[i] < hi,
        forall|i: int, j: int|
            0 <= i < j < starts_of(lo, hi, region_size).len() ==> #[trigger] starts_of(
                lo,
                hi,
                region_size,
            )[i] < #[trigger] starts_of(lo, hi, region_size)[j],
    decreases (if lo < hi { hi - lo } else { 0 }),
{
    if lo < hi {
        lemma_starts_in_range(lo + region_size, hi, region_size);
        let rest = starts_of(lo + region_size, hi, region_size);
        let all = starts_of(lo, hi, region_size);
        assert forall|i: int| 0 <= i < all.len() implies lo <= #[trigger] all[i] < hi by {
            if i > 0 {
                assert(all[i] == rest[i - 1]);
            }
        }
        assert forall|i: int, j: int| 0 <= i < j < all.len() implies #[trigger] all[i]
            < #[trigger] all[j] by {
            assert(all[j] == rest[j - 1]);
            if i > 0 {
                assert(all[i] == rest[i - 1]);
            }
        }
    }
}

proof fn lemma_collected_strings(
    outcomes: Seq<RegionOutcome>,
    data: Seq<u8>,
    lo: u64,
    hi: u64,
    region_size: u64,
    overlap: u64,
    min_string: nat,
    json: bool,
)
    requires
        region_size > 0,
        scanned(outcomes, data, lo, hi, region_size, overlap, min_string, json),
    ensures
        collected(outcomes).failure is None,
        found_in(collected(outcomes).results) == range_strings(
            data,
            lo,
            hi,
            region_size,
            overlap,
            min_string,
            json,
        ),
    decreases hi - lo,
{
    let starts = starts_of(lo as int, hi as int, region_size as int);
    if lo >= hi {
        assert(found_in(collected(outcomes).results) == Seq::<Found>::empty());
    } else {
        assert(all_done(outcomes)) by {
            assert forall|i: int| 0 <= i < outcomes.len() implies (
            #[trigger] outcomes[i]) is Done by {}
        }
        lemma_collected_front(outcomes);
        let tail = outcomes.skip(1);
        let rest = starts_of(lo + region_size, hi as int, region_size as int);
        assert(outcomes[0] is Done);
        let first = outcomes[0]->results@;
        assert(found_in(first + collected(tail).results) == found_in(first) + found_in(
            collected(tail).results,
        ));
        if lo + region_size >= hi {
            assert(tail == Seq::<RegionOutcome>::empty());
            assert(found_in(collected(tail).results) == Seq::<Found>::empty());
        } else {
            let next = (lo + region_size) as u64;
            assert(scanned(tail, data, next, hi, region_size, overlap, min_string, json)) by {
                assert forall|i: int| 0 <= i < tail.len() implies (
                #[trigger] tail[i] matches RegionOutcome::Done { start, output, results } && start
                    == rest[i] && found_in(results@) == region_strings(
                    data,
                    region_at(start, region_size, hi, overlap),
                    min_string,
                    json,
                )) by {
                    assert(tail[i] == outcomes[i + 1]);
                    assert(rest[i] == starts[i + 1]);
                }
            }
            lemma_collected_strings(
                tail,
                data,
                next,
                hi,
                region_size,
                overlap,
                min_string,
                json,
            );
        }
    }
}

/// Law: putting the outcomes of all regions of a range together fails nowhere and
/// gives the strings of the range, region after region.
pub proof fn law_file_scan_finds_the_strings(
    outcomes: Seq<RegionOutcome>,
    sorted_outcomes: Seq<RegionOutcome>,
    out: Seq<Found>,
    data: Seq<u8>,
    lo: u64,
    hi: u64,
    region_size: u64,
    overlap: u64,
    min_string: nat,
    json: bool,
)
    requires
        region_size > 0,
        hi <= data.len(),
        scanned(outcomes, data, lo, hi, region_size, overlap, min_string, json),
        stable_sort_of(sorted_outcomes, outcomes),
        merged(out, collected(sorted_outcomes).results),
    ensures
        collected(sorted_outcomes).failure is None,
        out == range_strings(data, lo, hi, region_size, overlap, min_string, json),
{
    let starts = starts_of(lo as int, hi as int, region_size as int);
    lemma_starts_in_range(lo as int, hi as int, region_size as int);
    assert(stable_sort_of(outcomes, outcomes)) by {
        assert forall|i: int, j: int| 0 <= i <= j < outcomes.len() implies (
        #[trigger] outcomes[i]).key() <= (#[trigger] outcomes[j]).key() by {
            if i < j {
                assert(starts[i] < starts[j]);
            }
        }
    }
    law_sort_is_unique(outcomes, sorted_outcomes, outcomes);
    lemma_collected_strings(outcomes, data, lo, hi, region_size, overlap, min_string, json);
    law_regions_do_not_overlap(data, lo, hi, region_size, overlap, min_string, json);
    law_order_of_arrival_does_not_matter(
        collected(outcomes).results,
        collected(outcomes).results,
        out,
    );
}

/// Law: the scan of a whole file gives the strings of the file that are asked for, no
/// others, each once and in order, if no region cuts one short.
pub proof fn law_whole_file_scan_is_exact(
    outcomes: Seq<RegionOutcome>,
    sorted_outcomes: Seq<RegionOutcome>,
    out: Seq<Found>,
    data: Seq<u8>,
    region_size: u64,
    overlap: u64,
    min_string: nat,
    json: bool,
)
    requires
        region_size > 0,
        data.len() <= u64::MAX,
        scanned(outcomes, data, 0, data.len() as u64, region_size, overlap, min_string, json),
        stable_sort_of(sorted_outcomes, outcomes),
        merged(out, collected(sorted_outcomes).results),
        nothing_cut(data, 0, data.len() as u64, region_size, overlap, min_string, json),
    ensures
        out == strings_of(data, min_string).filter(|f: Found| asked_for(json, f)),
{
    let hi = data.len() as u64;
    assert(data.take(hi as int) == data);
    law_file_scan_finds_the_strings(
        outcomes,
        sorted_outcomes,
        out,
        data,
        0,
        hi,
        region_size,
        overlap,
        min_string,
        json,
    );
    law_region_size_does_not_matter(data, 0, hi, region_size, overlap, min_string, json);
}

/// Law: when the last results of a range have arrived, the viewer lists the strings of
/// the range, in whatever order and batches they came.
pub proof fn law_viewer_lists_the_strings(
    all: Seq<ScanResult>,
    arrived: Seq<ScanResult>,
    shown: Seq<ScanResult>,
    batch: Seq<ScanResult>,
    out: Seq<ScanResult>,
    data: Seq<u8>,
    lo: u64,
    hi: u64,
    region_size: u64,
    overlap: u64,
    min_string: nat,
    json: bool,
)
    requires
        hi <= data.len(),
        region_size > 0,
        found_in(all) == range_strings(data, lo, hi, region_size, overlap, min_string, json),
        shown.to_multiset() == arrived.to_multiset(),
        all.to_multiset() == (arrived + batch).to_multiset(),
        merged_list(out, shown + batch),
    ensures
        found_in(out) == range_strings(data, lo, hi, region_size, overlap, min_string, json),
{
    law_regions_do_not_overlap(data, lo, hi, region_size, overlap, min_string, json);
    law_batches_do_not_matter(all, arrived, shown, batch, out);
}

/// Law: the regions of a range begin one region's size apart, from the beginning of the range
/// on; each begins in the range, and the last reaches its end.
pub proof fn law_regions_cover_the_range(lo: int, hi: int, region_size: int)
    requires
        lo <= hi,
        region_size > 0,
    ensures
        ({
            let starts = starts_of(lo, hi, region_size);
            &&& forall|i: int|
                0 <= i < starts.len() ==> #[trigger] starts[i] == lo + i * region_size && starts[i]
                    < hi
            &&& lo < hi ==> starts.len() > 0 && starts.last() + region_size >= hi
            &&& lo == hi ==> starts.len() == 0
        }),
    decreases hi - lo,
{
    let starts = starts_of(lo, hi, region_size);
    if lo < hi {
        let next = lo + region_size;
        let rest = starts_of(next, hi, region_size);
        if next < hi {
            law_regions_cover_the_range(next, hi, region_size);
            assert(starts.last() == rest.last());
        } else {
            assert(rest.len() == 0);
        }
        assert forall|i: int| 0 <= i < starts.len() implies #[trigger] starts[i] == lo + i
            * region_size && starts[i] < hi by {
            if i > 0 {
                assert(starts[i] == rest[i - 1]);
                assert(region_size + (i - 1) * region_size == i * region_size) by (nonlinear_arith);
            } else {
                assert(0 * region_size == 0) by (nonlinear_arith);
            }
        }
    }
}

} // verus!
