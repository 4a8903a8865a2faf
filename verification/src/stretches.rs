//! What is found, told by the bytes of the file alone.
use crate::extract::{extracted, lemma_nothing_to_suppress, resumed, CarryState};
use crate::json::is_structure;
use crate::merge::{collected, merged, RegionOutcome};
use crate::region::{asked_for, region_at, Region};
use crate::result::{Encoding, Found};
use crate::runs::{
    lemma_string_stop, lemma_string_stop_is, lemma_tracks_over, printable, starts_string,
    string_from, string_stop, strings_between, tracks,
};
use crate::scanner::{region_strings, visible};
use crate::sort::stable_sort_of;
use crate::whole::{
    law_file_scan_finds_the_strings, law_region_size_does_not_matter,
    law_short_strings_are_not_cut, range_strings, scanned,
};
use vstd::prelude::*;

verus! {

/// Whether the bytes from `a` up to but without `b` are a longest stretch of bytes from
/// 32 to 126, for a reader who stops at `stop`.
pub open spec fn stretch(data: Seq<u8>, a: int, b: int, stop: int) -> bool {
    &&& 0 <= a < b <= stop <= data.len()
    &&& forall|k: int| a <= k < b ==> 32 <= #[trigger] data[k] <= 126
    &&& a > 0 ==> !(32 <= data[a - 1] <= 126)
    &&& b < stop ==> !(32 <= data[b] <= 126)
}

/// Whether `f` is the stretch of bytes at its offset, letter by letter.
pub open spec fn tells_stretch(f: Found, data: Seq<u8>, stop: int) -> bool {
    &&& stretch(data, f.offset, f.offset + f.length, stop)
    &&& f.encoding == Encoding::Ascii
    &&& f.text.len() == f.length
    &&& forall|k: int|
        0 <= k < f.length ==> #[trigger] f.text[k] as int == data[f.offset + k] as int
}

/// Whether `s` holds stretches of `data` that begin from `lo` up to but without `hi` and
/// have at least `min_string` bytes, in order.
pub open spec fn tells_stretches(
    s: Seq<Found>,
    data: Seq<u8>,
    lo: int,
    hi: int,
    stop: int,
    min_string: int,
) -> bool {
    &&& forall|i: int|
        0 <= i < s.len() ==> tells_stretch(#[trigger] s[i], data, stop) && lo <= s[i].offset < hi
            && s[i].length >= min_string
    &&& forall|i: int, j: int|
        0 <= i < j < s.len() ==> (#[trigger] s[i]).offset + s[i].length < (#[trigger] s[j]).offset
}

/// Whether there is one of `s` for the stretch from `a` to `b`.
pub open spec fn told(s: Seq<Found>, a: int, b: int) -> bool {
    exists|i: int| 0 <= i < s.len() && (#[trigger] s[i]).offset == a && s[i].length == b - a
}

/// Whether `s` holds every such stretch.
pub open spec fn tells_all_stretches(
    s: Seq<Found>,
    data: Seq<u8>,
    lo: int,
    hi: int,
    stop: int,
    min_string: int,
) -> bool {
    forall|a: int, b: int|
        lo <= a < hi && b - a >= min_string && #[trigger] stretch(data, a, b, stop) ==> told(
            s,
            a,
            b,
        )
}

/// Whether `s` holds the stretches that begin in the `region_size` bytes from `start` on,
/// as far as a reader of a file of `file_size` bytes sees them who looks `overlap` bytes
/// further; all of them, unless only JSON structures are wanted.
pub open spec fn tells_region(
    s: Seq<Found>,
    data: Seq<u8>,
    start: int,
    region_size: int,
    file_size: int,
    overlap: int,
    min_string: int,
    json: bool,
) -> bool {
    let hi = if start + region_size <= file_size {
        start + region_size
    } else {
        file_size
    };
    let reach = if hi + overlap <= file_size {
        hi + overlap
    } else {
        file_size
    };
    let stop = if reach <= data.len() {
        reach
    } else {
        data.len() as int
    };
    tells_between(s, data, start, hi, stop, min_string, json)
}

/// Whether `s` holds the stretches that begin from `lo` up to but without `hi`, for a
/// reader who stops at `stop`; all of them, or all that are JSON structures.
pub open spec fn tells_between(
    s: Seq<Found>,
    data: Seq<u8>,
    lo: int,
    hi: int,
    stop: int,
    min_string: int,
    json: bool,
) -> bool {
    &&& tells_stretches(s, data, lo, hi, stop, min_string)
    &&& !json ==> tells_all_stretches(s, data, lo, hi, stop, min_string)
    &&& json ==> forall|i: int| 0 <= i < s.len() ==> is_structure((#[trigger] s[i]).text)
    &&& json ==> forall|a: int, b: int|
        lo <= a < hi && b - a >= min_string && #[trigger] stretch(data, a, b, stop)
            && is_structure(letters(data, a, b)) ==> told(s, a, b)
}

/// The bytes from `a` up to but without `b` as letters.
pub open spec fn letters(data: Seq<u8>, a: int, b: int) -> Seq<char> {
    Seq::new((b - a) as nat, |k: int| data[a + k] as char)
}

proof fn lemma_string_is_stretch(data: Seq<u8>, a: int, stop: int)
    requires
        0 <= a < stop <= data.len(),
        starts_string(data.take(stop), a),
    ensures
        tells_stretch(string_from(data.take(stop), a), data, stop),
        string_from(data.take(stop), a).offset == a,
        string_from(data.take(stop), a).length == string_stop(data.take(stop), a) - a,
{
    let d = data.take(stop);
    lemma_string_stop(d, a);
    let f = string_from(d, a);
    let b = string_stop(d, a);
    assert(d[a] == data[a]);
    if b == a {
        lemma_string_stop_is(d, a + 1, a + 1);
    }
    assert(b > a);
    assert forall|k: int| a <= k < b implies 32 <= #[trigger] data[k] <= 126 by {
        assert(d[k] == data[k]);
    }
    assert forall|k: int| 0 <= k < f.length implies #[trigger] f.text[k] as int == data[f.offset
        + k] as int by {
        assert(d.subrange(a, b)[k] == data[a + k]);
    }
}

proof fn lemma_strings_between_tell(data: Seq<u8>, lo: int, hi: int, stop: int, min_string: nat)
    requires
        0 <= lo,
        hi <= stop <= data.len(),
    ensures
        tells_stretches(
            strings_between(data.take(stop), lo, hi, min_string),
            data,
            lo,
            hi,
            stop,
            min_string as int,
        ),
        tells_all_stretches(
            strings_between(data.take(stop), lo, hi, min_string),
            data,
            lo,
            hi,
            stop,
            min_string as int,
        ),
    decreases hi - lo,
{
    let d = data.take(stop);
    let s = strings_between(d, lo, hi, min_string);
    if lo < hi {
        let c = hi - 1;
        let before = strings_between(d, lo, c, min_string);
        lemma_strings_between_tell(data, lo, c, stop, min_string);
        if starts_string(d, c) {
            lemma_string_is_stretch(data, c, stop);
        }
        let f = string_from(d, c);
        assert(tells_stretches(s, data, lo, hi, stop, min_string as int)) by {
            assert forall|i: int| 0 <= i < s.len() implies tells_stretch(
                #[trigger] s[i],
                data,
                stop,
            ) && lo <= s[i].offset < hi && s[i].length >= min_string by {
                if i < before.len() {
                    assert(s[i] == before[i]);
                }
            }
            assert forall|i: int, j: int| 0 <= i < j < s.len() implies (#[trigger] s[i]).offset
                + s[i].length < (#[trigger] s[j]).offset by {
                assert(s[i] == before[i]);
                if j < before.len() {
                    assert(s[j] == before[j]);
                } else {
                    assert(tells_stretch(before[i], data, stop));
                    let e = before[i].offset + before[i].length;
                    if e >= c {
                        if e > c {
                            assert(32 <= data[c - 1] <= 126);
                        } else {
                            assert(!(32 <= data[c] <= 126));
                        }
                        assert(d[c] == data[c]);
                        assert(d[c - 1] == data[c - 1]);
                    }
                }
            }
        }
        assert forall|a: int, b: int|
            lo <= a < hi && b - a >= min_string && #[trigger] stretch(
                data,
                a,
                b,
                stop,
            ) implies told(s, a, b) by {
            if a < c {
                assert(told(before, a, b));
                let i = choose|i: int|
                    0 <= i < before.len() && (#[trigger] before[i]).offset == a && before[i].length
                        == b - a;
                assert(s[i] == before[i]);
            } else {
                assert(32 <= data[a] <= 126);
                assert(d[a] == data[a]);
                if a > 0 {
                    assert(d[a - 1] == data[a - 1]);
                }
                assert forall|k: int| a <= k < b implies printable(
                    #[trigger] d[k],
                ) by {
                    assert(32 <= data[k] <= 126);
                }
                lemma_string_stop_is(d, a, b);
                assert(s[before.len() as int] == f);
            }
        }
    }
}

/// Law: a region yields longest stretches of bytes from 32 to 126 that begin in it, each
/// letter of a string being the byte at its place, in order; and every such stretch of at
/// least `min_string` bytes, unless only JSON structures are wanted. Then it yields those
/// that are one.
pub proof fn law_region_tells_its_bytes(
    data: Seq<u8>,
    region: Region,
    min_string: nat,
    json: bool,
)
    requires
        region.end <= region.string_end,
    ensures
        ({
            let stop = if region.string_end <= data.len() {
                region.string_end as int
            } else {
                data.len() as int
            };
            let lo = region.start as int;
            let hi = region.end as int;
            let s = region_strings(data, region, min_string, json);
            tells_between(s, data, lo, hi, stop, min_string as int, json)
        }),
{
    let seen = visible(data, region);
    let stop = seen.len() as int;
    let lo = region.start as int;
    let hi = if region.end <= stop {
        region.end as int
    } else {
        stop
    };
    assert(seen == data.take(stop));
    lemma_strings_between_tell(data, lo, hi, stop, min_string);
    let all = strings_between(seen, lo, hi, min_string);
    lemma_filter_tells(all, data, lo, hi, stop, min_string as int, json);
    lemma_all_are_asked_for(all);
    let s = region_strings(data, region, min_string, json);
    if !json {
        assert forall|a: int, b: int|
            lo <= a < region.end && b - a >= min_string && #[trigger] stretch(
                data,
                a,
                b,
                stop,
            ) implies told(s, a, b) by {
            assert(a < hi);
        }
    } else {
        assert forall|i: int| 0 <= i < s.len() implies is_structure((#[trigger] s[i]).text) by {
            assert(s.contains(s[i]));
            lemma_filter_contains(all, json, s[i]);
        }
        assert forall|a: int, b: int|
            lo <= a < region.end && b - a >= min_string && #[trigger] stretch(data, a, b, stop)
                && is_structure(letters(data, a, b)) implies told(s, a, b) by {
            assert(told(all, a, b));
            let i = choose|i: int|
                0 <= i < all.len() && (#[trigger] all[i]).offset == a && all[i].length == b - a;
            let f = all[i];
            assert(tells_stretch(f, data, stop));
            assert(f.text == letters(data, a, b)) by {
                assert forall|k: int| 0 <= k < b - a implies f.text[k] == letters(
                    data,
                    a,
                    b,
                )[k] by {
                    assert(f.text[k] as int == data[a + k] as int);
                }
            }
            assert(all.contains(f));
            lemma_filter_contains(all, json, f);
            let m = choose|m: int| 0 <= m < s.len() && s[m] == f;
            assert(s[m].offset == a && s[m].length == b - a);
        }
    }
}

proof fn lemma_filter_contains(s: Seq<Found>, json: bool, f: Found)
    ensures
        s.filter(|g: Found| asked_for(json, g)).contains(f) <==> s.contains(f) && asked_for(
            json,
            f,
        ),
{
    broadcast use vstd::seq_lib::group_filter_ensures;

    let q = |g: Found| asked_for(json, g);
    let t = s.filter(q);
    if t.contains(f) {
        let i = choose|i: int| 0 <= i < t.len() && t[i] == f;
        assert(q(t[i]));
        lemma_filter_from(s, q, i);
    }
    if s.contains(f) && asked_for(json, f) {
        let i = choose|i: int| 0 <= i < s.len() && s[i] == f;
        assert(q(s[i]));
        assert(t.contains(s[i]));
    }
}

proof fn lemma_filter_from(s: Seq<Found>, q: spec_fn(Found) -> bool, i: int)
    requires
        0 <= i < s.filter(q).len(),
    ensures
        s.contains(s.filter(q)[i]),
    decreases s.len(),
{
    reveal(Seq::filter);
    if s.len() > 0 {
        let front = s.drop_last();
        if i < front.filter(q).len() {
            lemma_filter_from(front, q, i);
            let k = choose|k: int| 0 <= k < front.len() && front[k] == front.filter(q)[i];
            assert(s[k] == s.filter(q)[i]);
        } else {
            assert(s[s.len() - 1] == s.filter(q)[i]);
        }
    }
}

proof fn lemma_all_are_asked_for(s: Seq<Found>)
    ensures
        s.filter(|f: Found| asked_for(false, f)) == s,
    decreases s.len(),
{
    reveal(Seq::filter);
    if s.len() > 0 {
        lemma_all_are_asked_for(s.drop_last());
        assert(s == s.drop_last().push(s.last()));
    }
}

proof fn lemma_filter_tells(
    s: Seq<Found>,
    data: Seq<u8>,
    lo: int,
    hi: int,
    stop: int,
    min_string: int,
    json: bool,
)
    requires
        tells_stretches(s, data, lo, hi, stop, min_string),
    ensures
        tells_stretches(
            s.filter(|f: Found| asked_for(json, f)),
            data,
            lo,
            hi,
            stop,
            min_string,
        ),
    decreases s.len(),
{
    let q = |f: Found| asked_for(json, f);
    reveal(Seq::filter);
    if s.len() > 0 {
        let front = s.drop_last();
        assert(tells_stretches(front, data, lo, hi, stop, min_string)) by {
            assert forall|i: int| 0 <= i < front.len() implies tells_stretch(
                #[trigger] front[i],
                data,
                stop,
            ) && lo <= front[i].offset < hi && front[i].length >= min_string by {
                assert(tells_stretch(s[i], data, stop));
            }
            assert forall|i: int, j: int| 0 <= i < j < front.len() implies (
            #[trigger] front[i]).offset + front[i].length < (#[trigger] front[j]).offset by {
                assert(s[i].offset + s[i].length < s[j].offset);
            }
        }
        lemma_filter_tells(front, data, lo, hi, stop, min_string, json);
        let kept = front.filter(q);
        let t = s.filter(q);
        if front.len() > 0 {
            assert(s[front.len() - 1].offset + s[front.len() - 1].length < s[s.len() - 1].offset);
            assert(tells_stretch(s[front.len() - 1], data, stop));
        }
        if q(s.last()) {
            assert(t == kept.push(s.last()));
            assert(tells_stretch(s[s.len() - 1], data, stop));
            assert forall|i: int, j: int| 0 <= i < j < t.len() implies (#[trigger] t[i]).offset
                + t[i].length < (#[trigger] t[j]).offset by {
                if j == kept.len() {
                    lemma_filter_from(front, q, i);
                    let m = choose|m: int| 0 <= m < front.len() && front[m] == kept[i];
                    assert(s[m].offset + s[m].length < s[s.len() - 1].offset);
                } else {
                    assert(kept[i].offset + kept[i].length < kept[j].offset);
                }
            }
        }
    }
}

/// Law: whatever the size of the regions, a range yields exactly its longest stretches of
/// bytes from 32 to 126 with at least `min_string` bytes, in order, if none has more than
/// `overlap + 1` bytes.
pub proof fn law_range_tells_its_bytes(
    data: Seq<u8>,
    lo: u64,
    hi: u64,
    region_size: u64,
    overlap: u64,
    min_string: nat,
)
    requires
        lo <= hi <= data.len(),
        region_size > 0,
        forall|a: int, b: int| #[trigger]
            stretch(data, a, b, hi as int) ==> b - a <= overlap + 1,
    ensures
        ({
            let s = range_strings(data, lo, hi, region_size, overlap, min_string, false);
            &&& tells_stretches(s, data, lo as int, hi as int, hi as int, min_string as int)
            &&& tells_all_stretches(s, data, lo as int, hi as int, hi as int, min_string as int)
        }),
{
    let d = data.take(hi as int);
    assert forall|a: int| #[trigger] starts_string(d, a) implies string_stop(d, a) - a <= overlap
        + 1 by {
        lemma_string_is_stretch(data, a, hi as int);
        assert(stretch(data, a, string_stop(d, a), hi as int));
    }
    law_short_strings_are_not_cut(d, lo, hi, region_size, overlap, min_string, false);
    law_region_size_does_not_matter(data, lo, hi, region_size, overlap, min_string, false);
    lemma_strings_between_tell(data, lo as int, hi as int, hi as int, min_string);
    lemma_all_are_asked_for(strings_between(d, lo as int, hi as int, min_string));
}

/// Law: putting the outcomes of the regions of a range together, in whatever order they
/// come, gives exactly those stretches.
pub proof fn law_file_scan_tells_its_bytes(
    outcomes: Seq<RegionOutcome>,
    sorted_outcomes: Seq<RegionOutcome>,
    out: Seq<Found>,
    data: Seq<u8>,
    lo: u64,
    hi: u64,
    region_size: u64,
    overlap: u64,
    min_string: nat,
)
    requires
        lo <= hi <= data.len(),
        region_size > 0,
        forall|a: int, b: int| #[trigger]
            stretch(data, a, b, hi as int) ==> b - a <= overlap + 1,
        scanned(outcomes, data, lo, hi, region_size, overlap, min_string, false),
        stable_sort_of(sorted_outcomes, outcomes),
        merged(out, collected(sorted_outcomes).results),
    ensures
        collected(sorted_outcomes).failure is None,
        tells_stretches(out, data, lo as int, hi as int, hi as int, min_string as int),
        tells_all_stretches(out, data, lo as int, hi as int, hi as int, min_string as int),
{
    law_file_scan_finds_the_strings(
        outcomes,
        sorted_outcomes,
        out,
        data,
        lo,
        hi,
        region_size,
        overlap,
        min_string,
        false,
    );
    law_range_tells_its_bytes(data, lo, hi, region_size, overlap, min_string);
}

/// Law: a region holds the bytes from its start on, as many as it has and no further than
/// the file, and sees `overlap` bytes more, no further than the file.
pub proof fn law_region_holds_its_bytes(
    start: u64,
    region_size: u64,
    file_size: u64,
    overlap: u64,
    p: int,
)
    ensures
        ({
            let r = region_at(start, region_size, file_size, overlap);
            &&& r.start == start
            &&& p < r.end <==> p < start + region_size && p < file_size
            &&& p < r.string_end <==> p < start + region_size + overlap && p < file_size
            &&& r.end <= r.string_end <= file_size
        }),
{
}

/// Law: one read takes up the stretch that was left unfinished at `c`, and takes every longest
/// stretch of bytes from 32 to 126 that ends in front of the end of the read, if it has at least
/// `min_string` bytes; what it leaves unfinished is the stretch from `e` to the end of the read.
pub proof fn law_read_tells_its_bytes(
    data: Seq<u8>,
    c: int,
    p: int,
    q: int,
    left_over: int,
    min_string: nat,
) -> (e: int)
    requires
        0 <= c <= p <= q <= data.len(),
        forall|k: int| c <= k < p ==> 32 <= #[trigger] data[k] <= 126,
        c > 0 ==> !(32 <= data[c - 1] <= 126),
        c < p ==> left_over == c,
        min_string >= 1,
    ensures
        c <= e <= q,
        forall|k: int| e <= k < q ==> 32 <= #[trigger] data[k] <= 126,
        e > c ==> !(32 <= data[e - 1] <= 126),
        ({
            let carry = CarryState {
                bytes: data.subrange(c, p),
                start: left_over,
                suppress: false,
            };
            let (after, found) = extracted(carry, data.subrange(p, q), p, min_string, 0);
            &&& tells_stretches(found, data, c, e, q, min_string as int)
            &&& tells_all_stretches(found, data, c, e, q, min_string as int)
            &&& after.bytes == data.subrange(e, q)
            &&& after.start == (if e < q {
                e
            } else {
                left_over
            })
            &&& !after.suppress
        }),
{
    let d = data.take(q);
    let carry = CarryState { bytes: data.subrange(c, p), start: left_over, suppress: false };
    let st = resumed(carry);
    assert forall|k: int| c <= k < p implies printable(#[trigger] d[k]) by {
        assert(d[k] == data[k]);
    }
    assert(d.subrange(c, p) == data.subrange(c, p));
    if c > 0 {
        assert(d[c - 1] == data[c - 1]);
    }
    assert(tracks(st, d, c, p, c, min_string));
    let e = lemma_tracks_over(st, d, c, p, c, q, min_string);
    assert(d.subrange(p, q) == data.subrange(p, q));
    assert(d.subrange(e, q) == data.subrange(e, q));
    lemma_nothing_to_suppress(st, data.subrange(p, q), p, min_string, 0, c);
    lemma_strings_between_tell(data, c, e, q, min_string);
    assert forall|k: int| e <= k < q implies 32 <= #[trigger] data[k] <= 126 by {
        assert(printable(d[k]));
    }
    if e > c {
        assert(d[e - 1] == data[e - 1]);
    }
    e
}

} // verus!
