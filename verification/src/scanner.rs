//! Scanning a file region by region.
use crate::bounds::smaller;
use crate::extract::resumed;
use crate::region::{
    asked_for, fed, final_found, final_output, fresh, leftover, owned, pieces, plan_region,
    region_at, takes_strings, wanted, Piece, Region, RegionScanner, ScanOptions, ScannerView,
};
use crate::result::{found_in, Found, ScanResult};
use crate::runs::{
    found_at, lemma_no_starts, lemma_run_over_found, lemma_string_stop_is, lemma_tracks_over,
    printable, starts_string, string_from, string_stop, strings_between, tracks, RunState,
};
use crate::stretches::{law_region_tells_its_bytes, tells_region};
use vstd::prelude::*;
use vstd::slice::slice_subrange;

verus! {

/// The byte before `start`, if there is one in the file.
pub open spec fn byte_before(data: Seq<u8>, start: int) -> Option<u8> {
    if 0 < start <= data.len() {
        Some(data[start - 1])
    } else {
        None
    }
}

/// How many bytes a read of the file `data` brings.
pub open spec fn read_len(v: ScannerView, data: Seq<u8>) -> int {
    smaller(wanted(v), data.len() - v.offset)
}

/// How many bytes there are still to read.
pub open spec fn bytes_left(v: ScannerView) -> nat {
    if v.offset < v.region.string_end {
        (v.region.string_end - v.offset) as nat
    } else {
        0
    }
}

/// The scan after reading what it needs of the file `data`.
pub open spec fn read_all(v: ScannerView, data: Seq<u8>) -> ScannerView
    decreases bytes_left(v),
{
    let n = read_len(v, data);
    if n <= 0 || v.offset < 0 {
        v
    } else {
        read_all(fed(v, data.subrange(v.offset, v.offset + n)), data)
    }
}

/// The part of the file `data` that a region gets to see, with all before it.
pub open spec fn visible(data: Seq<u8>, region: Region) -> Seq<u8> {
    data.take(smaller(region.string_end as int, data.len() as int))
}

/// The strings that a region owns: those of the part of the file that it sees
/// that begin in it and are asked for.
pub open spec fn region_strings(
    data: Seq<u8>,
    region: Region,
    min_string: nat,
    json: bool,
) -> Seq<Found> {
    let seen = visible(data, region);
    strings_between(
        seen,
        region.start as int,
        smaller(region.end as int, seen.len() as int),
        min_string,
    ).filter(|f: Found| asked_for(json, f))
}

/// What the machine of a scan knows.
pub open spec fn machine(v: ScannerView) -> RunState {
    RunState {
        current: v.carry.bytes,
        start: v.carry.start,
        suppress: v.carry.suppress,
        found: v.found,
    }
}

/// Whether a scan, as far as it has gone, has taken the strings of `d`, and is in
/// the middle of the printable stretch that begins at `c`.
pub open spec fn on_stretch(v: ScannerView, d: Seq<u8>, c: int) -> bool {
    tracks(machine(v), d, v.region.start as int, v.offset, c, v.options.min_string as nat)
}

/// Whether a scan, as far as it has gone, has taken the strings of `d`.
pub open spec fn on_track(v: ScannerView, d: Seq<u8>) -> bool {
    exists|c: int| on_stretch(v, d, c)
}

/// A scan that has read nothing has taken the strings so far: none.
pub proof fn lemma_fresh_on_track(
    region: Region,
    options: ScanOptions,
    listing: bool,
    d: Seq<u8>,
)
    requires
        region.start <= d.len(),
    ensures
        on_track(fresh(region, options, listing, byte_before(d, region.start as int)), d),
{
    let v = fresh(region, options, listing, byte_before(d, region.start as int));
    let a = region.start as int;
    assert(d.subrange(a, a) == Seq::<u8>::empty());
    assert(on_stretch(v, d, a));
}

proof fn lemma_fed_on_track(v: ScannerView, d: Seq<u8>, bytes: Seq<u8>)
    requires
        on_track(v, d),
        takes_strings(v),
        v.options.min_string >= 1,
        v.offset + bytes.len() <= d.len(),
        bytes == d.subrange(v.offset, v.offset + bytes.len()),
    ensures
        on_track(fed(v, bytes), d),
{
    let start = v.region.start as int;
    let min = v.options.min_string as nat;
    let c = choose|c: int| on_stretch(v, d, c);
    let q = v.offset + bytes.len();
    let e = lemma_tracks_over(machine(v), d, start, v.offset, c, q, min);
    lemma_run_over_found(resumed(v.carry), v.found, bytes, v.offset, min, start);
    assert(v.found + Seq::<Found>::empty() == v.found);
    assert(on_stretch(fed(v, bytes), d, e));
}

/// Of the strings before `hi`, the region owns those before its end.
proof fn lemma_owned_strings(d: Seq<u8>, region: Region, hi: int, min: nat, json: bool)
    requires
        region.start <= hi,
    ensures
        strings_between(d, region.start as int, hi, min).filter(
            |f: Found| owned(region, json, f),
        ) == strings_between(d, region.start as int, smaller(hi, region.end as int), min).filter(
            |f: Found| asked_for(json, f),
        ),
    decreases hi - region.start,
{
    let start = region.start as int;
    let p = |f: Found| owned(region, json, f);
    let q = |f: Found| asked_for(json, f);
    let all = strings_between(d, start, hi, min);
    reveal(Seq::filter);
    if hi > start {
        lemma_owned_strings(d, region, hi - 1, min, json);
        let before = strings_between(d, start, hi - 1, min);
        if starts_string(d, hi - 1) && string_stop(d, hi - 1) - (hi - 1) >= min {
            assert(all.drop_last() == before);
        }
        if hi <= region.end {
            let mine = strings_between(d, start, hi, min);
            assert(all.filter(p) == mine.filter(q));
        }
    }
}

/// A scan that has read all that it sees ends with the strings of the region.
proof fn lemma_final_found(v: ScannerView, d: Seq<u8>)
    requires
        on_track(v, d),
        takes_strings(v),
        v.options.min_string >= 1,
        v.offset == d.len(),
    ensures
        final_found(v) == strings_between(
            d,
            v.region.start as int,
            smaller(v.region.end as int, d.len() as int),
            v.options.min_string as nat,
        ).filter(|f: Found| asked_for(v.options.json, f)),
{
    let start = v.region.start as int;
    let end = v.region.end as int;
    let min = v.options.min_string as nat;
    let json = v.options.json;
    let n = d.len() as int;
    let c = choose|c: int| on_stretch(v, d, c);
    let p = |f: Found| owned(v.region, json, f);
    let q = |f: Found| asked_for(json, f);
    lemma_owned_strings(d, v.region, c, min, json);
    Seq::filter_distributes_over_add(v.found, leftover(v), p);
    reveal(Seq::filter);
    if c < n {
        lemma_string_stop_is(d, c, n);
        assert(string_from(d, c) == found_at(c, v.carry.bytes));
        assert(printable(d[c]));
        assert forall|k: int| c < k < n implies !#[trigger] starts_string(d, k) by {
            assert(printable(d[k - 1]));
        }
        if c < end {
            lemma_no_starts(d, start, c + 1, smaller(end, n), min);
            let whole = strings_between(d, start, c + 1, min);
            let before = strings_between(d, start, c, min);
            if starts_string(d, c) && n - c >= min {
                assert(whole.drop_last() == before);
                let f = string_from(d, c);
                reveal_with_fuel(Seq::filter, 2);
                assert(whole.filter(q) == (if q(f) {
                    before.filter(q).push(f)
                } else {
                    before.filter(q)
                }));
                if q(f) {
                    assert(leftover(v) == seq![f]);
                    assert(seq![f].drop_last() == Seq::<Found>::empty());
                    assert(seq![f].filter(p) == seq![f]);
                } else {
                    assert(leftover(v) == Seq::<Found>::empty());
                }
                assert(final_found(v) == whole.filter(q));
            } else {
                assert(leftover(v) == Seq::<Found>::empty());
                assert(final_found(v) == whole.filter(q));
            }
        } else {
            assert(leftover(v) == Seq::<Found>::empty());
            assert(final_found(v) == strings_between(d, start, end, min).filter(q));
        }
    } else {
        assert(leftover(v) == Seq::<Found>::empty());
    }
}

/// A scan reads to the end of what it sees, and takes the strings of it.
pub proof fn lemma_read_all(v: ScannerView, data: Seq<u8>)
    requires
        v.options.chunk_size >= 1,
        v.region.end <= v.region.string_end,
        v.offset >= 0,
        v.offset <= visible(data, v.region).len(),
        on_track(v, visible(data, v.region)),
        takes_strings(v),
        v.options.min_string >= 1,
    ensures
        ({
            let w = read_all(v, data);
            &&& on_track(w, visible(data, v.region))
            &&& w.offset == visible(data, v.region).len()
            &&& w.region == v.region
            &&& w.options == v.options
            &&& w.listing == v.listing
        }),
    decreases bytes_left(v),
{
    let d = visible(data, v.region);
    let n = read_len(v, data);
    if n > 0 {
        let bytes = data.subrange(v.offset, v.offset + n);
        assert(bytes == d.subrange(v.offset, v.offset + n));
        lemma_fed_on_track(v, d, bytes);
        lemma_read_all(fed(v, bytes), data);
    }
}

/// A scan that begins behind what it can see finds nothing.
pub proof fn lemma_nothing_to_read(
    region: Region,
    options: ScanOptions,
    listing: bool,
    data: Seq<u8>,
)
    requires
        region.start >= visible(data, region).len(),
    ensures
        ({
            let v = fresh(region, options, listing, byte_before(data, region.start as int));
            &&& read_all(v, data) == v
            &&& final_found(v) == Seq::<Found>::empty()
        }),
{
    let v = fresh(region, options, listing, byte_before(data, region.start as int));
    reveal(Seq::filter);
    assert(v.found + leftover(v) == Seq::<Found>::empty());
}

/// Law: with strings of at least one byte and reads that bring something, a
/// region ends with the strings of the file that begin in it, as far as the
/// region sees them; no others, and each of them once.
pub proof fn law_region_finds_its_strings(
    data: Seq<u8>,
    region: Region,
    options: ScanOptions,
    listing: bool,
)
    requires
        region.end <= region.string_end,
        options.chunk_size >= 1,
        options.min_string >= 1,
        !listing || !options.hex_only,
    ensures
        final_found(
            read_all(
                fresh(region, options, listing, byte_before(data, region.start as int)),
                data,
            ),
        ) == region_strings(data, region, options.min_string as nat, options.json),
{
    let start = region.start as int;
    let d = visible(data, region);
    if start >= d.len() {
        lemma_nothing_to_read(region, options, listing, data);
        reveal(Seq::filter);
    } else {
        let v = fresh(region, options, listing, byte_before(data, start));
        assert(byte_before(data, start) == byte_before(d, start));
        lemma_fresh_on_track(region, options, listing, d);
        lemma_read_all(v, data);
        lemma_final_found(read_all(v, data), d);
    }
}

/// The scan after the reads `reads`, one after the other.
pub open spec fn fed_all(v: ScannerView, reads: Seq<Seq<u8>>) -> ScannerView
    decreases reads.len(),
{
    if reads.len() == 0 {
        v
    } else {
        fed(fed_all(v, reads.drop_last()), reads.last())
    }
}

proof fn lemma_fed_all(v: ScannerView, reads: Seq<Seq<u8>>, d: Seq<u8>)
    requires
        on_track(v, d),
        takes_strings(v),
        v.options.min_string >= 1,
        v.offset >= 0,
        v.offset + reads.flatten().len() <= d.len(),
        reads.flatten() == d.subrange(v.offset, v.offset + reads.flatten().len()),
    ensures
        ({
            let w = fed_all(v, reads);
            &&& on_track(w, d)
            &&& w.offset == v.offset + reads.flatten().len()
            &&& w.region == v.region
            &&& w.options == v.options
            &&& w.listing == v.listing
        }),
    decreases reads.len(),
{
    if reads.len() == 0 {
        assert(reads.flatten() == Seq::<u8>::empty()) by {
            reveal(Seq::flatten);
        }
    } else {
        let front = reads.drop_last();
        reads.lemma_flatten_and_flatten_alt_are_equivalent();
        front.lemma_flatten_and_flatten_alt_are_equivalent();
        assert(reads.flatten() == front.flatten() + reads.last());
        let mid = v.offset + front.flatten().len();
        assert(front.flatten() == d.subrange(v.offset, mid)) by {
            assert(front.flatten() == reads.flatten().take(front.flatten().len() as int));
        }
        lemma_fed_all(v, front, d);
        let w = fed_all(v, front);
        assert(reads.last() == d.subrange(mid, mid + reads.last().len())) by {
            assert(reads.last() == reads.flatten().skip(front.flatten().len() as int));
        }
        lemma_fed_on_track(w, d, reads.last());
    }
}

/// Law: how the bytes of a region are cut into reads does not matter.
pub proof fn law_reads_do_not_matter(
    data: Seq<u8>,
    region: Region,
    options: ScanOptions,
    listing: bool,
    reads: Seq<Seq<u8>>,
)
    requires
        options.min_string >= 1,
        !listing || !options.hex_only,
        region.start <= visible(data, region).len(),
        reads.flatten() == visible(data, region).skip(region.start as int),
    ensures
        final_found(
            fed_all(
                fresh(region, options, listing, byte_before(data, region.start as int)),
                reads,
            ),
        ) == region_strings(data, region, options.min_string as nat, options.json),
{
    let start = region.start as int;
    let d = visible(data, region);
    let v = fresh(region, options, listing, byte_before(data, start));
    assert(byte_before(data, start) == byte_before(d, start));
    lemma_fresh_on_track(region, options, listing, d);
    assert(d.skip(start) == d.subrange(start, d.len() as int));
    lemma_fed_all(v, reads, d);
    lemma_final_found(fed_all(v, reads), d);
}

/// Lets a scan read what it needs of the file `data`.
fn read_whole(begun: RegionScanner, data: &[u8]) -> (r: RegionScanner)
    requires
        begun.well_formed(),
        begun@.offset >= 0,
    ensures
        r.well_formed(),
        r@ == read_all(begun@, data@),
{
    let ghost first = begun@;
    let mut scanner = begun;
    loop
        invariant
            scanner.well_formed(),
            scanner@.offset >= 0,
            first == begun@,
            read_all(first, data@) == read_all(scanner@, data@),
        decreases bytes_left(scanner@),
    {
        let at: u64 = scanner.position();
        let want: usize = scanner.wanted();
        if want == 0 || at >= data.len() as u64 {
            return scanner;
        }
        let from: usize = at as usize;
        let left: usize = data.len() - from;
        let n: usize = if want < left {
            want
        } else {
            left
        };
        let bytes = slice_subrange(data, from, from + n);
        scanner.feed(bytes);
    }
}

/// The byte before `start`, if there is one in the file.
fn previous_byte(data: &[u8], start: u64) -> (b: Option<u8>)
    ensures
        b == byte_before(data@, start as int),
{
    if start > 0 && start <= data.len() as u64 {
        Some(data[start as usize - 1])
    } else {
        None
    }
}

/// Scans the region of the file `data` that begins at `start`: the report and
/// the strings that the region owns.
pub fn scan_region_with_results(
    data: &[u8],
    start: u64,
    region_size: u64,
    file_size: u64,
    chunk_size: usize,
    strings_only: bool,
    hex_only: bool,
    min_string: usize,
    overlap: u64,
    json: bool,
) -> (r: (Vec<Piece>, Vec<ScanResult>))
    ensures
        ({
            let region = region_at(start, region_size, file_size, overlap);
            let options = ScanOptions { chunk_size, strings_only, hex_only, min_string, json };
            let done = read_all(
                fresh(region, options, true, byte_before(data@, start as int)),
                data@,
            );
            &&& pieces(r.0@) == final_output(done)
            &&& found_in(r.1@) == final_found(done)
            &&& chunk_size >= 1 && min_string >= 1 && !hex_only ==> found_in(r.1@)
                == region_strings(data@, region, min_string as nat, json)
        }),
        chunk_size >= 1 && min_string >= 1 && !hex_only ==> tells_region(
            found_in(r.1@),
            data@,
            start as int,
            region_size as int,
            file_size as int,
            overlap as int,
            min_string as int,
            json,
        ),
{
    let region = plan_region(start, region_size, file_size, overlap);
    let options = ScanOptions { chunk_size, strings_only, hex_only, min_string, json };
    let scanner = RegionScanner::new(region, options, true, previous_byte(data, start));
    let scanner = read_whole(scanner, data);
    proof {
        if chunk_size >= 1 && min_string >= 1 && !hex_only {
            law_region_finds_its_strings(data@, region, options, true);
            law_region_tells_its_bytes(data@, region, min_string as nat, json);
        }
    }
    scanner.finish()
}

/// Scans the region of the file `data` that begins at `start` for the strings
/// that the region owns.
pub fn scan_region_strings(
    data: &[u8],
    start: u64,
    region_size: u64,
    file_size: u64,
    chunk_size: usize,
    min_string: usize,
    overlap: u64,
    json: bool,
) -> (r: Vec<ScanResult>)
    ensures
        ({
            let region = region_at(start, region_size, file_size, overlap);
            let options = string_options(chunk_size, min_string, json);
            let done = read_all(
                fresh(region, options, false, byte_before(data@, start as int)),
                data@,
            );
            &&& found_in(r@) == final_found(done)
            &&& chunk_size >= 1 && min_string >= 1 ==> found_in(r@) == region_strings(
                data@,
                region,
                min_string as nat,
                json,
            )
        }),
        chunk_size >= 1 && min_string >= 1 ==> tells_region(
            found_in(r@),
            data@,
            start as int,
            region_size as int,
            file_size as int,
            overlap as int,
            min_string as int,
            json,
        ),
{
    let region = plan_region(start, region_size, file_size, overlap);
    let options = ScanOptions { chunk_size, strings_only: true, hex_only: false, min_string, json };
    let scanner = RegionScanner::new(region, options, false, previous_byte(data, start));
    let scanner = read_whole(scanner, data);
    proof {
        if chunk_size >= 1 && min_string >= 1 {
            law_region_finds_its_strings(data@, region, options, false);
            law_region_tells_its_bytes(data@, region, min_string as nat, json);
        }
    }
    let (_output, results) = scanner.finish();
    results
}

/// The options of a scan for strings alone.
pub open spec fn string_options(chunk_size: usize, min_string: usize, json: bool) -> ScanOptions {
    ScanOptions { chunk_size, strings_only: true, hex_only: false, min_string, json }
}

} // verus!
