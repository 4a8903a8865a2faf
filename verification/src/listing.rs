//! What the report of a region holds.
use crate::bounds::smaller;
use crate::dump::{dump_line, law_dump_line_tells_bytes, line_tells};
use crate::extract::extracted;
use crate::region::{
    fed, final_found, final_output, fresh, hits, leftover, owned, reported, takes_strings,
    PieceView, Region, ScanOptions, ScannerView,
};
use crate::report::{piece_text, string_line};
use crate::result::Found;
use crate::runs::strings_between;
use crate::scanner::{
    byte_before, bytes_left, lemma_fresh_on_track, lemma_nothing_to_read, lemma_read_all,
    on_stretch, read_all, read_len, visible,
};
use vstd::prelude::*;

verus! {

/// The strings of a report.
pub open spec fn only_hits(report: Seq<PieceView>) -> Seq<PieceView> {
    report.filter(|p: PieceView| p is Hit)
}

/// The dumps of a report.
pub open spec fn only_dumps(report: Seq<PieceView>) -> Seq<PieceView> {
    report.filter(|p: PieceView| p is Dump)
}

/// Strings as pieces of a report.
pub open spec fn as_hits(found: Seq<Found>) -> Seq<PieceView> {
    found.map_values(|f: Found| PieceView::Hit(f))
}

/// The dumps of the bytes of `data` from `from` up to but without `to`, each of
/// `chunk_size` bytes but for the last one.
pub open spec fn dumps_between(
    data: Seq<u8>,
    from: int,
    to: int,
    chunk_size: int,
    hex_only: bool,
) -> Seq<PieceView>
    decreases (if from < to {
        to - from
    } else {
        0
    }),
{
    if from < 0 || from >= to || chunk_size <= 0 {
        Seq::empty()
    } else {
        let next = smaller(from + chunk_size, to);
        seq![PieceView::Dump(dump_line(from as nat, data.subrange(from, next), hex_only))]
            + dumps_between(data, next, to, chunk_size, hex_only)
    }
}

proof fn lemma_filter_all<A>(s: Seq<A>, p: spec_fn(A) -> bool)
    requires
        forall|i: int| 0 <= i < s.len() ==> p(#[trigger] s[i]),
    ensures
        s.filter(p) == s,
    decreases s.len(),
{
    reveal(Seq::filter);
    if s.len() > 0 {
        lemma_filter_all(s.drop_last(), p);
        assert(p(s[s.len() - 1]));
        assert(s == s.drop_last().push(s.last()));
    }
}

proof fn lemma_filter_none<A>(s: Seq<A>, p: spec_fn(A) -> bool)
    requires
        forall|i: int| 0 <= i < s.len() ==> !p(#[trigger] s[i]),
    ensures
        s.filter(p) == Seq::<A>::empty(),
    decreases s.len(),
{
    reveal(Seq::filter);
    if s.len() > 0 {
        lemma_filter_none(s.drop_last(), p);
        assert(!p(s[s.len() - 1]));
    }
}

proof fn lemma_filter_same<A>(s: Seq<A>, p: spec_fn(A) -> bool, q: spec_fn(A) -> bool)
    requires
        forall|i: int| 0 <= i < s.len() ==> p(#[trigger] s[i]) == q(s[i]),
    ensures
        s.filter(p) == s.filter(q),
    decreases s.len(),
{
    reveal(Seq::filter);
    if s.len() > 0 {
        lemma_filter_same(s.drop_last(), p, q);
        assert(p(s[s.len() - 1]) == q(s[s.len() - 1]));
    }
}

proof fn lemma_hits_are_hits(s: Seq<Found>)
    ensures
        only_hits(as_hits(s)) == as_hits(s),
        only_dumps(as_hits(s)) == Seq::<PieceView>::empty(),
{
    lemma_filter_all(as_hits(s), |p: PieceView| p is Hit);
    lemma_filter_none(as_hits(s), |p: PieceView| p is Dump);
}

/// The dump that one read adds to a report, if it does.
pub open spec fn dump_of(v: ScannerView, bytes: Seq<u8>) -> Seq<PieceView> {
    if v.listing && v.offset < v.region.end && !v.options.strings_only {
        seq![PieceView::Dump(dump_line(v.offset as nat, bytes, v.options.hex_only))]
    } else {
        Seq::empty()
    }
}

proof fn lemma_dump_is_dump(v: ScannerView, bytes: Seq<u8>)
    ensures
        only_hits(dump_of(v, bytes)) == Seq::<PieceView>::empty(),
        only_dumps(dump_of(v, bytes)) == dump_of(v, bytes),
{
    lemma_filter_none(dump_of(v, bytes), |p: PieceView| p is Hit);
    lemma_filter_all(dump_of(v, bytes), |p: PieceView| p is Dump);
}

proof fn lemma_fed_report(v: ScannerView, bytes: Seq<u8>)
    requires
        v.listing,
    ensures
        ({
            let w = fed(v, bytes);
            &&& only_dumps(w.output) == only_dumps(v.output) + dump_of(v, bytes)
            &&& takes_strings(v) && only_hits(v.output) == hits(
                v.region,
                v.options.json,
                v.found,
            ) ==> only_hits(w.output) == hits(v.region, v.options.json, w.found)
            &&& !takes_strings(v) ==> only_hits(w.output) == only_hits(v.output)
        }),
{
    let e = extracted(
        v.carry,
        bytes,
        v.offset,
        v.options.min_string as nat,
        v.region.start as int,
    );
    let dump = dump_of(v, bytes);
    let json = v.options.json;
    let r = |f: Found| reported(v.region, json, f);
    let new = hits(v.region, json, e.1);
    let hit = |p: PieceView| p is Hit;
    let dumped = |p: PieceView| p is Dump;
    lemma_dump_is_dump(v, bytes);
    lemma_hits_are_hits(e.1.filter(r));
    assert(new == as_hits(e.1.filter(r)));
    Seq::filter_distributes_over_add(v.output, dump, hit);
    Seq::filter_distributes_over_add(v.output, dump, dumped);
    Seq::filter_distributes_over_add(v.output + dump, new, hit);
    Seq::filter_distributes_over_add(v.output + dump, new, dumped);
    Seq::filter_distributes_over_add(v.found, e.1, r);
    assert(hits(v.region, json, v.found + e.1) == hits(v.region, json, v.found) + new);
    if takes_strings(v) {
        assert(only_hits(fed(v, bytes).output) == only_hits(v.output) + new);
        assert(only_dumps(fed(v, bytes).output) == only_dumps(v.output) + dump);
    } else {
        assert(only_hits(fed(v, bytes).output) == only_hits(v.output));
        assert(only_dumps(fed(v, bytes).output) == only_dumps(v.output) + dump);
    }
}

proof fn lemma_reported_hits(v: ScannerView, data: Seq<u8>)
    requires
        v.listing,
        takes_strings(v),
        only_hits(v.output) == hits(v.region, v.options.json, v.found),
    ensures
        ({
            let w = read_all(v, data);
            &&& only_hits(w.output) == hits(v.region, v.options.json, w.found)
            &&& w.region == v.region
            &&& w.options == v.options
            &&& w.listing == v.listing
        }),
    decreases bytes_left(v),
{
    let n = read_len(v, data);
    if n > 0 && v.offset >= 0 {
        let bytes = data.subrange(v.offset, v.offset + n);
        lemma_fed_report(v, bytes);
        lemma_reported_hits(fed(v, bytes), data);
    }
}

proof fn lemma_strings_start_inside(d: Seq<u8>, lo: int, hi: int, min: nat)
    ensures
        forall|i: int|
            0 <= i < strings_between(d, lo, hi, min).len() ==> lo <= (
            #[trigger] strings_between(d, lo, hi, min)[i]).offset,
    decreases (if lo < hi {
        hi - lo
    } else {
        0
    }),
{
    if lo < hi {
        lemma_strings_start_inside(d, lo, hi - 1, min);
    }
}

/// Law: the strings that are reported are those that the region owns, in the same
/// order. If only strings are asked for, the report holds nothing else.
pub proof fn law_report_lists_the_strings(data: Seq<u8>, region: Region, options: ScanOptions)
    requires
        region.end <= region.string_end,
        options.chunk_size >= 1,
        options.min_string >= 1,
        !options.hex_only,
    ensures
        ({
            let done = read_all(
                fresh(region, options, true, byte_before(data, region.start as int)),
                data,
            );
            &&& only_hits(final_output(done)) == as_hits(final_found(done))
            &&& options.strings_only ==> final_output(done) == as_hits(final_found(done))
        }),
{
    let start = region.start as int;
    let json = options.json;
    let v = fresh(region, options, true, byte_before(data, start));
    let d = visible(data, region);
    let done = read_all(v, data);
    let hit = |p: PieceView| p is Hit;
    let mine = |f: Found| owned(region, json, f);
    let shown = |f: Found| reported(region, json, f);
    lemma_filter_none(v.output, hit);
    lemma_filter_none(v.found, shown);
    assert(hits(region, json, v.found) == Seq::<PieceView>::empty());
    lemma_reported_hits(v, data);
    if start >= d.len() {
        lemma_nothing_to_read(region, options, true, data);
        assert(leftover(v) == Seq::<Found>::empty());
        lemma_filter_none(final_output(v), hit);
        assert(final_output(v) == as_hits(final_found(v)));
    } else {
        assert(byte_before(data, start) == byte_before(d, start));
        lemma_fresh_on_track(region, options, true, d);
        lemma_read_all(v, data);
        let c = choose|c: int| on_stretch(done, d, c);
        assert(on_stretch(done, d, c));
        lemma_strings_start_inside(d, start, c, options.min_string as nat);
        lemma_filter_same(done.found, mine, shown);
        lemma_filter_all(leftover(done), mine);
        Seq::filter_distributes_over_add(done.found, leftover(done), mine);
        lemma_hits_are_hits(leftover(done));
        Seq::filter_distributes_over_add(done.output, as_hits(leftover(done)), hit);
        assert(as_hits(final_found(done)) == hits(region, json, done.found) + as_hits(
            leftover(done),
        ));
        if options.strings_only {
            lemma_strings_only(v, data);
            assert(done.output == hits(region, json, done.found));
        }
    }
}

proof fn lemma_strings_only(v: ScannerView, data: Seq<u8>)
    requires
        v.listing,
        takes_strings(v),
        v.options.strings_only,
        v.output == hits(v.region, v.options.json, v.found),
    ensures
        ({
            let w = read_all(v, data);
            w.output == hits(v.region, v.options.json, w.found)
        }),
    decreases bytes_left(v),
{
    let n = read_len(v, data);
    if n > 0 && v.offset >= 0 {
        let bytes = data.subrange(v.offset, v.offset + n);
        let w = fed(v, bytes);
        let e = extracted(
            v.carry,
            bytes,
            v.offset,
            v.options.min_string as nat,
            v.region.start as int,
        );
        let r = |f: Found| reported(v.region, v.options.json, f);
        Seq::filter_distributes_over_add(v.found, e.1, r);
        assert(w.output == hits(v.region, v.options.json, w.found));
        lemma_strings_only(w, data);
    }
}

proof fn lemma_reported_dumps(v: ScannerView, data: Seq<u8>)
    requires
        v.listing,
        !v.options.strings_only,
        v.offset >= 0,
        v.region.end <= v.region.string_end,
    ensures
        ({
            let w = read_all(v, data);
            &&& only_dumps(w.output) == only_dumps(v.output) + dumps_between(
                data,
                v.offset,
                smaller(v.region.end as int, data.len() as int),
                v.options.chunk_size as int,
                v.options.hex_only,
            )
            &&& w.region == v.region
            &&& w.options == v.options
            &&& w.listing == v.listing
            &&& !takes_strings(v) && only_hits(v.output).len() == 0 ==> only_hits(w.output).len()
                == 0
        }),
    decreases bytes_left(v),
{
    let n = read_len(v, data);
    let to = smaller(v.region.end as int, data.len() as int);
    let chunk = v.options.chunk_size as int;
    if n > 0 {
        let bytes = data.subrange(v.offset, v.offset + n);
        let w = fed(v, bytes);
        lemma_fed_report(v, bytes);
        lemma_reported_dumps(w, data);
        if v.offset < v.region.end {
            assert(v.offset + n == smaller(v.offset + chunk, to));
        }
        assert(only_dumps(v.output) + dump_of(v, bytes) + dumps_between(
            data,
            v.offset + n,
            to,
            chunk,
            v.options.hex_only,
        ) == only_dumps(v.output) + dumps_between(
            data,
            v.offset,
            to,
            chunk,
            v.options.hex_only,
        ));
    } else {
        assert(dumps_between(data, v.offset, to, chunk, v.options.hex_only) == Seq::<
            PieceView,
        >::empty());
    }
}

/// A report without strings is its dumps.
proof fn lemma_dumps_alone(report: Seq<PieceView>)
    requires
        only_hits(report).len() == 0,
    ensures
        only_dumps(report) == report,
    decreases report.len(),
{
    reveal(Seq::filter);
    if report.len() > 0 {
        lemma_dumps_alone(report.drop_last());
        assert(report == report.drop_last().push(report.last()));
    }
}

/// Law: the dumps that are reported show the bytes of the region as far as the file
/// has them, each once and in order. If only bytes are asked for, the report holds
/// nothing else.
pub proof fn law_report_dumps_the_region(data: Seq<u8>, region: Region, options: ScanOptions)
    requires
        region.end <= region.string_end,
        !options.strings_only,
    ensures
        ({
            let done = read_all(
                fresh(region, options, true, byte_before(data, region.start as int)),
                data,
            );
            let dumps = dumps_between(
                data,
                region.start as int,
                smaller(region.end as int, data.len() as int),
                options.chunk_size as int,
                options.hex_only,
            );
            &&& only_dumps(final_output(done)) == dumps
            &&& options.hex_only ==> final_output(done) == dumps
        }),
{
    let v = fresh(region, options, true, byte_before(data, region.start as int));
    let done = read_all(v, data);
    let dumped = |p: PieceView| p is Dump;
    lemma_filter_none(v.output, dumped);
    lemma_filter_none(v.output, |p: PieceView| p is Hit);
    lemma_reported_dumps(v, data);
    lemma_hits_are_hits(leftover(done));
    Seq::filter_distributes_over_add(done.output, as_hits(leftover(done)), dumped);
    if options.hex_only {
        assert(leftover(done) == Seq::<Found>::empty());
        assert(final_output(done) == done.output);
        lemma_dumps_alone(done.output);
    }
}

/// What is printed of a report, given the text of the percentage of each offset.
pub open spec fn printed(
    report: Seq<PieceView>,
    file_size: nat,
    percent: spec_fn(int) -> Seq<char>,
) -> Seq<char>
    decreases report.len(),
{
    if report.len() == 0 {
        Seq::empty()
    } else {
        let text = match report.last() {
            PieceView::Dump(line) => piece_text(report.last(), file_size, Seq::empty()),
            PieceView::Hit(f) => piece_text(report.last(), file_size, percent(f.offset)),
        };
        printed(report.drop_last(), file_size, percent) + text
    }
}

/// The lines that report strings.
pub open spec fn string_lines(
    found: Seq<Found>,
    file_size: nat,
    percent: spec_fn(int) -> Seq<char>,
) -> Seq<char>
    decreases found.len(),
{
    if found.len() == 0 {
        Seq::empty()
    } else {
        let f = found.last();
        string_lines(found.drop_last(), file_size, percent) + string_line(
            f,
            file_size,
            percent(f.offset),
        )
    }
}

proof fn lemma_printed_hits(
    report: Seq<PieceView>,
    found: Seq<Found>,
    file_size: nat,
    percent: spec_fn(int) -> Seq<char>,
)
    ensures
        printed(report + as_hits(found), file_size, percent) == printed(report, file_size, percent)
            + string_lines(found, file_size, percent),
    decreases found.len(),
{
    let whole = report + as_hits(found);
    if found.len() == 0 {
        assert(whole == report);
    } else {
        let front = found.drop_last();
        lemma_printed_hits(report, front, file_size, percent);
        assert(whole.drop_last() == report + as_hits(front));
        assert(whole.last() == PieceView::Hit(found.last()));
    }
}

/// Law: a read with a report takes the same strings as one without, and leaves the same
/// to carry on: those of `extracted`. Behind the dump of the bytes, if there is one, it
/// reports those among the new strings that begin in front of the region's end and are
/// asked for, in order, a line each.
pub proof fn law_report_is_beside_the_scan(
    v: ScannerView,
    silent: ScannerView,
    bytes: Seq<u8>,
    file_size: nat,
    percent: spec_fn(int) -> Seq<char>,
)
    requires
        v.listing,
        !v.options.hex_only,
        silent == (ScannerView { listing: false, output: silent.output, ..v }),
    ensures
        ({
            let w = fed(v, bytes);
            let u = fed(silent, bytes);
            let e = extracted(
                v.carry,
                bytes,
                v.offset,
                v.options.min_string as nat,
                v.region.start as int,
            );
            let new = e.1.filter(|f: Found| reported(v.region, v.options.json, f));
            let dumped = v.output + dump_of(v, bytes);
            &&& w.carry == e.0 && u.carry == e.0
            &&& w.found == v.found + e.1 && u.found == v.found + e.1
            &&& w.offset == u.offset
            &&& u.output == silent.output
            &&& w.output == dumped + as_hits(new)
            &&& printed(w.output, file_size, percent) == printed(dumped, file_size, percent)
                + string_lines(new, file_size, percent)
        }),
{
    let e = extracted(
        v.carry,
        bytes,
        v.offset,
        v.options.min_string as nat,
        v.region.start as int,
    );
    let new = e.1.filter(|f: Found| reported(v.region, v.options.json, f));
    lemma_printed_hits(v.output + dump_of(v, bytes), new, file_size, percent);
}

/// Whether a piece is the dump of `bytes` at `offset`.
pub open spec fn dump_tells(p: PieceView, offset: int, bytes: Seq<u8>, hex_only: bool) -> bool {
    p matches PieceView::Dump(line) && line_tells(line, offset, bytes, hex_only)
}

/// Where the `i`-th chunk begins.
pub open spec fn chunk_at(from: int, chunk: int, i: int) -> int {
    from + i * chunk
}

/// Whether `dumps` are those of the bytes of `data` from `from` up to but without `to`,
/// a chunk each: every byte stands in the dump of its chunk.
pub open spec fn dumps_tell(
    dumps: Seq<PieceView>,
    data: Seq<u8>,
    from: int,
    to: int,
    chunk: int,
    hex_only: bool,
) -> bool {
    &&& from < to ==> chunk_at(from, chunk, dumps.len() - 1) < to <= chunk_at(
        from,
        chunk,
        dumps.len() as int,
    )
    &&& from >= to ==> dumps.len() == 0
    &&& forall|i: int|
        0 <= i < dumps.len() ==> dump_tells(
            #[trigger] dumps[i],
            chunk_at(from, chunk, i),
            data.subrange(
                chunk_at(from, chunk, i),
                if chunk_at(from, chunk, i) + chunk <= to {
                    chunk_at(from, chunk, i) + chunk
                } else {
                    to
                },
            ),
            hex_only,
        )
}

proof fn lemma_dumps_tell(data: Seq<u8>, from: int, to: int, chunk: int, hex_only: bool)
    requires
        0 <= from,
        to <= data.len(),
        to <= u64::MAX,
        chunk >= 1,
    ensures
        dumps_tell(dumps_between(data, from, to, chunk, hex_only), data, from, to, chunk, hex_only),
    decreases (if from < to {
        to - from
    } else {
        0
    }),
{
    let dumps = dumps_between(data, from, to, chunk, hex_only);
    if from < to {
        let next = smaller(from + chunk, to);
        let rest = dumps_between(data, next, to, chunk, hex_only);
        lemma_dumps_tell(data, next, to, chunk, hex_only);
        law_dump_line_tells_bytes(from as u64, data.subrange(from, next), hex_only);
        assert(0 * chunk == 0) by (nonlinear_arith);
        assert(1 * chunk == chunk) by (nonlinear_arith);
        assert(chunk_at(from, chunk, 0) == from);
        if next < to {
            assert forall|i: int| #[trigger] chunk_at(next, chunk, i) == chunk_at(
                from,
                chunk,
                i + 1,
            ) by {
                assert(chunk + i * chunk == (i + 1) * chunk) by (nonlinear_arith);
            }
            assert(chunk_at(next, chunk, rest.len() - 1) == chunk_at(from, chunk, dumps.len() - 1));
            assert(chunk_at(next, chunk, rest.len() as int) == chunk_at(
                from,
                chunk,
                dumps.len() as int,
            ));
        } else {
            assert(rest.len() == 0);
            assert(chunk_at(from, chunk, 1) == from + chunk);
        }
        assert forall|i: int| 0 <= i < dumps.len() implies dump_tells(
            #[trigger] dumps[i],
            chunk_at(from, chunk, i),
            data.subrange(
                chunk_at(from, chunk, i),
                if chunk_at(from, chunk, i) + chunk <= to {
                    chunk_at(from, chunk, i) + chunk
                } else {
                    to
                },
            ),
            hex_only,
        ) by {
            if i > 0 {
                assert(dumps[i] == rest[i - 1]);
                assert(chunk_at(next, chunk, i - 1) == chunk_at(from, chunk, i));
            }
        }
    }
}

/// Law: the dumps of a report tell every byte of the region, as far as the file has it, at
/// its address: the i-th one the i-th chunk, none left out.
pub proof fn law_dumps_tell_the_region(data: Seq<u8>, region: Region, options: ScanOptions)
    requires
        region.end <= region.string_end,
        options.chunk_size >= 1,
        !options.strings_only,
    ensures
        ({
            let done = read_all(
                fresh(region, options, true, byte_before(data, region.start as int)),
                data,
            );
            dumps_tell(
                only_dumps(final_output(done)),
                data,
                region.start as int,
                if region.end <= data.len() {
                    region.end as int
                } else {
                    data.len() as int
                },
                options.chunk_size as int,
                options.hex_only,
            )
        }),
{
    law_report_dumps_the_region(data, region, options);
    lemma_dumps_tell(
        data,
        region.start as int,
        smaller(region.end as int, data.len() as int),
        options.chunk_size as int,
        options.hex_only,
    );
}

proof fn lemma_bytes_alone_find_nothing(v: ScannerView, data: Seq<u8>)
    requires
        !takes_strings(v),
        v.found.len() == 0,
    ensures
        !takes_strings(read_all(v, data)),
        read_all(v, data).found.len() == 0,
    decreases bytes_left(v),
{
    let n = read_len(v, data);
    if n > 0 && v.offset >= 0 {
        lemma_bytes_alone_find_nothing(fed(v, data.subrange(v.offset, v.offset + n)), data);
    }
}

/// Law: if only bytes are asked for, no string is found, and none is reported.
pub proof fn law_bytes_alone_find_nothing(data: Seq<u8>, region: Region, options: ScanOptions)
    requires
        region.end <= region.string_end,
        options.hex_only,
        !options.strings_only,
    ensures
        ({
            let done = read_all(
                fresh(region, options, true, byte_before(data, region.start as int)),
                data,
            );
            &&& final_found(done).len() == 0
            &&& only_dumps(final_output(done)) == final_output(done)
        }),
{
    let v = fresh(region, options, true, byte_before(data, region.start as int));
    let done = read_all(v, data);
    lemma_bytes_alone_find_nothing(v, data);
    law_report_dumps_the_region(data, region, options);
    assert(done.found + leftover(done) == Seq::<Found>::empty());
    reveal(Seq::filter);
}

} // verus!
