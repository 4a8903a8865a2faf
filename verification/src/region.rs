//! One region of a file: which bytes to read, and what is made of each read.
use crate::bounds::{min_u64, smaller};
use crate::dump::{dump_line, format_dump_line};
use crate::extract::{
    all_printable, extract_strings_simple_suppress, extracted, is_printable, text_from, Carry,
    CarryState,
};
use crate::json::{is_json_structure, is_structure};
use crate::result::{found_in, Encoding, Found, ScanResult};
use crate::runs::{found_at, printable};
use crate::text::chars_of;
use vstd::prelude::*;

verus! {

/// A part of a file that is scanned on its own.
#[derive(Debug, Clone, Copy, PartialEq, Eq, Structural)]
pub struct Region {
    /// Where it begins.
    pub start: u64,
    /// Where the strings it owns stop beginning.
    pub end: u64,
    /// Where reading stops: behind `end`, to see strings that cross it.
    pub string_end: u64,
}

/// The region at `start` with `region_size` bytes, read `overlap` bytes further,
/// all of it inside a file of `file_size` bytes.
pub open spec fn region_at(start: u64, region_size: u64, file_size: u64, overlap: u64) -> Region {
    let end = smaller(start + region_size, file_size as int);
    Region {
        start,
        end: end as u64,
        string_end: smaller(end + overlap, file_size as int) as u64,
    }
}

/// The region at `start`.
pub fn plan_region(start: u64, region_size: u64, file_size: u64, overlap: u64) -> (r: Region)
    ensures
        r == region_at(start, region_size, file_size, overlap),
{
    let past: u64 = start.saturating_add(region_size);
    let end: u64 = min_u64(past, file_size);
    let string_end: u64 = min_u64(end.saturating_add(overlap), file_size);
    Region { start, end, string_end }
}

/// What is wanted of a scan.
#[derive(Debug, Clone, Copy, PartialEq, Eq, Structural)]
pub struct ScanOptions {
    /// How many bytes are read at once.
    pub chunk_size: usize,
    /// No dump of the bytes.
    pub strings_only: bool,
    /// Only a dump of the bytes.
    pub hex_only: bool,
    /// How many bytes a string has at least.
    pub min_string: usize,
    /// Only strings that are JSON objects or arrays.
    pub json: bool,
}

/// A piece of a region's printed report.
#[derive(Debug)]
pub enum Piece {
    /// A line that shows bytes.
    Dump(String),
    /// A string.
    Hit(ScanResult),
}

/// What a `Piece` says.
pub enum PieceView {
    Dump(Seq<char>),
    Hit(Found),
}

impl View for Piece {
    type V = PieceView;

    open spec fn view(&self) -> PieceView {
        match self {
            Piece::Dump(s) => PieceView::Dump(s@),
            Piece::Hit(r) => PieceView::Hit(r@),
        }
    }
}

/// What a report says.
pub open spec fn pieces(output: Seq<Piece>) -> Seq<PieceView> {
    output.map_values(|p: Piece| p@)
}

/// A scan of one region that has gone over some of its bytes.
#[derive(Debug)]
pub struct RegionScanner {
    region: Region,
    options: ScanOptions,
    listing: bool,
    offset: u64,
    carry: Carry,
    output: Vec<Piece>,
    results: Vec<ScanResult>,
}

/// What a `RegionScanner` knows.
pub struct ScannerView {
    pub region: Region,
    pub options: ScanOptions,
    /// Whether there is a report beside the strings.
    pub listing: bool,
    /// The next byte to read.
    pub offset: int,
    pub carry: CarryState,
    pub output: Seq<PieceView>,
    pub found: Seq<Found>,
}

/// Whether strings are taken at all.
pub open spec fn takes_strings(v: ScannerView) -> bool {
    !v.listing || !v.options.hex_only
}

/// Whether a string is one that is asked for.
pub open spec fn asked_for(json: bool, f: Found) -> bool {
    json ==> is_structure(f.text)
}

/// Whether a string goes to the report.
pub open spec fn reported(region: Region, json: bool, f: Found) -> bool {
    f.offset < region.end && asked_for(json, f)
}

/// The pieces that a report gets for some strings.
pub open spec fn hits(region: Region, json: bool, found: Seq<Found>) -> Seq<PieceView> {
    found.filter(|f: Found| reported(region, json, f)).map_values(|f: Found| PieceView::Hit(f))
}

/// How many bytes the next read is to bring at most.
pub open spec fn wanted(v: ScannerView) -> int {
    if v.offset >= v.region.string_end {
        0
    } else if v.listing && v.offset < v.region.end {
        smaller(v.region.end - v.offset, v.options.chunk_size as int)
    } else {
        smaller(v.region.string_end - v.offset, v.options.chunk_size as int)
    }
}

/// The scan after a read of `bytes`.
pub open spec fn fed(v: ScannerView, bytes: Seq<u8>) -> ScannerView {
    let e = extracted(
        v.carry,
        bytes,
        v.offset,
        v.options.min_string as nat,
        v.region.start as int,
    );
    let dump = if v.listing && v.offset < v.region.end && !v.options.strings_only {
        seq![PieceView::Dump(dump_line(v.offset as nat, bytes, v.options.hex_only))]
    } else {
        Seq::empty()
    };
    if takes_strings(v) {
        ScannerView {
            offset: v.offset + bytes.len(),
            carry: e.0,
            output: if v.listing {
                v.output + dump + hits(v.region, v.options.json, e.1)
            } else {
                v.output
            },
            found: v.found + e.1,
            ..v
        }
    } else {
        ScannerView { offset: v.offset + bytes.len(), output: v.output + dump, ..v }
    }
}

/// The unfinished string, if it counts once reading is over.
pub open spec fn leftover(v: ScannerView) -> Seq<Found> {
    if takes_strings(v) && v.carry.bytes.len() > 0 && v.carry.bytes.len() >= v.options.min_string
        && !(v.carry.suppress && v.carry.start == v.region.start) && v.carry.start < v.region.end {
        let f = found_at(v.carry.start, v.carry.bytes);
        if asked_for(v.options.json, f) {
            seq![f]
        } else {
            Seq::empty()
        }
    } else {
        Seq::empty()
    }
}

/// Whether the region owns a string and it is asked for.
pub open spec fn owned(region: Region, json: bool, f: Found) -> bool {
    region.start <= f.offset && reported(region, json, f)
}

/// The report of a region once reading is over.
pub open spec fn final_output(v: ScannerView) -> Seq<PieceView> {
    if v.listing {
        v.output + leftover(v).map_values(|f: Found| PieceView::Hit(f))
    } else {
        v.output
    }
}

/// The strings of a region once reading is over.
pub open spec fn final_found(v: ScannerView) -> Seq<Found> {
    (v.found + leftover(v)).filter(|f: Found| owned(v.region, v.options.json, f))
}

/// A scan that has read nothing yet, the byte before the region being `previous`.
pub open spec fn fresh(
    region: Region,
    options: ScanOptions,
    listing: bool,
    previous: Option<u8>,
) -> ScannerView {
    ScannerView {
        region,
        options,
        listing,
        offset: region.start as int,
        carry: CarryState {
            bytes: Seq::empty(),
            start: 0,
            suppress: region.start > 0 && (previous matches Some(b) && printable(b)),
        },
        output: Seq::empty(),
        found: Seq::empty(),
    }
}

fn is_asked_for(json: bool, r: &ScanResult) -> (b: bool)
    ensures
        b == asked_for(json, r@),
{
    if json {
        is_json_structure(&chars_of(r.text.as_str()))
    } else {
        true
    }
}

/// Takes the strings that end in `bytes`, which stand at `base_offset`, and
/// reports those among them that begin in the region.
pub fn extract_strings_with_results(
    bytes: &[u8],
    base_offset: u64,
    carry: &mut Carry,
    min_string: usize,
    output: &mut Vec<Piece>,
    results: &mut Vec<ScanResult>,
    region: Region,
    json: bool,
)
    requires
        all_printable(old(carry).bytes@),
        base_offset + bytes.len() <= u64::MAX + 1,
    ensures
        all_printable(final(carry).bytes@),
        ({
            let e = extracted(
                old(carry)@,
                bytes@,
                base_offset as int,
                min_string as nat,
                region.start as int,
            );
            &&& final(carry)@ == e.0
            &&& found_in(final(results)@) == found_in(old(results)@) + e.1
            &&& pieces(final(output)@) == pieces(old(output)@) + hits(region, json, e.1)
        }),
{
    let known: usize = results.len();
    extract_strings_simple_suppress(bytes, base_offset, carry, min_string, results, region.start);
    let ghost all = found_in(results@);
    let ghost p = |f: Found| reported(region, json, f);
    let ghost q = |f: Found| PieceView::Hit(f);
    let ghost before = pieces(output@);
    let mut i: usize = known;
    proof {
        assert(all.len() >= found_in(old(results)@).len());
        reveal(Seq::filter);
        assert(all.subrange(known as int, known as int).filter(p).map_values(q) == Seq::<
            PieceView,
        >::empty());
    }
    while i < results.len()
        invariant
            known <= i <= results.len(),
            p == |f: Found| reported(region, json, f),
            q == |f: Found| PieceView::Hit(f),
            all == found_in(results@),
            pieces(output@) == before + all.subrange(known as int, i as int).filter(p).map_values(
                q,
            ),
        decreases results.len() - i,
    {
        let ghost done = all.subrange(known as int, i as int);
        let ghost next = all.subrange(known as int, i + 1);
        proof {
            reveal(Seq::filter);
            assert(next.drop_last() == done);
            assert(next.last() == results@[i as int]@);
        }
        if results[i].offset < region.end && is_asked_for(json, &results[i]) {
            let ghost earlier = output@;
            let piece = Piece::Hit(results[i].clone());
            output.push(piece);
            proof {
                assert(pieces(output@) == pieces(earlier).push(piece@));
                assert(next.filter(p) == done.filter(p).push(next.last()));
                assert(next.filter(p).map_values(q) == done.filter(p).map_values(q).push(
                    q(next.last()),
                ));
                assert(pieces(output@) == before + next.filter(p).map_values(q));
            }
        }
        i += 1;
    }
    proof {
        let e = extracted(
            old(carry)@,
            bytes@,
            base_offset as int,
            min_string as nat,
            region.start as int,
        );
        assert(all.subrange(known as int, all.len() as int) == e.1);
    }
}

impl View for RegionScanner {
    type V = ScannerView;

    closed spec fn view(&self) -> ScannerView {
        ScannerView {
            region: self.region,
            options: self.options,
            listing: self.listing,
            offset: self.offset as int,
            carry: self.carry@,
            output: pieces(self.output@),
            found: found_in(self.results@),
        }
    }
}

impl RegionScanner {
    /// The unfinished string holds printable bytes only.
    pub closed spec fn well_formed(&self) -> bool {
        all_printable(self.carry.bytes@)
    }

    /// Begins a scan. `previous` is the byte before the region, if it could be
    /// read; `listing` asks for a report beside the strings.
    pub fn new(
        region: Region,
        options: ScanOptions,
        listing: bool,
        previous: Option<u8>,
    ) -> (r: RegionScanner)
        ensures
            r.well_formed(),
            r@ == fresh(region, options, listing, previous),
    {
        let inside: bool = match previous {
            Some(b) => is_printable(b),
            None => false,
        };
        let r = RegionScanner {
            region,
            options,
            listing,
            offset: region.start,
            carry: Carry {
                bytes: Vec::new(),
                start: 0,
                suppress: region.start > 0 && inside,
            },
            output: Vec::new(),
            results: Vec::new(),
        };
        proof {
            let want = fresh(region, options, listing, previous);
            assert(r@.output == want.output);
            assert(r@.found == want.found);
        }
        r
    }

    /// Where in the file the next read begins.
    pub fn position(&self) -> (n: u64)
        ensures
            n == self@.offset,
    {
        self.offset
    }

    /// How many bytes the next read is to bring at most; zero when none is needed.
    pub fn wanted(&self) -> (n: usize)
        ensures
            n == wanted(self@),
    {
        if self.offset >= self.region.string_end {
            return 0;
        }
        let limit: u64 = if self.listing && self.offset < self.region.end {
            self.region.end
        } else {
            self.region.string_end
        };
        let left: u64 = limit - self.offset;
        if left <= self.options.chunk_size as u64 {
            left as usize
        } else {
            self.options.chunk_size
        }
    }

    /// Takes the bytes of a read.
    pub fn feed(&mut self, bytes: &[u8])
        requires
            old(self).well_formed(),
            bytes.len() <= wanted(old(self)@),
        ensures
            final(self).well_formed(),
            final(self)@ == fed(old(self)@, bytes@),
    {
        let ghost v = self@;
        let in_region: bool = self.listing && self.offset < self.region.end;
        if in_region && !self.options.strings_only {
            let line = format_dump_line(self.offset, bytes, self.options.hex_only);
            self.output.push(Piece::Dump(line));
        }
        let ghost dump = if in_region && !v.options.strings_only {
            seq![PieceView::Dump(dump_line(v.offset as nat, bytes@, v.options.hex_only))]
        } else {
            Seq::empty()
        };
        assert(pieces(self.output@) == v.output + dump);
        if self.listing && !self.options.hex_only {
            extract_strings_with_results(
                bytes,
                self.offset,
                &mut self.carry,
                self.options.min_string,
                &mut self.output,
                &mut self.results,
                self.region,
                self.options.json,
            );
        } else if !self.listing {
            extract_strings_simple_suppress(
                bytes,
                self.offset,
                &mut self.carry,
                self.options.min_string,
                &mut self.results,
                self.region.start,
            );
        }
        self.offset = self.offset + bytes.len() as u64;
        proof {
            let want = fed(v, bytes@);
            assert(self@.output == want.output);
            assert(self@.found == want.found);
            assert(self@ == want);
        }
    }

    /// Ends the scan: the report and the strings that the region owns.
    pub fn finish(self) -> (r: (Vec<Piece>, Vec<ScanResult>))
        requires
            self.well_formed(),
        ensures
            pieces(r.0@) == final_output(self@),
            found_in(r.1@) == final_found(self@),
    {
        let region = self.region;
        let json: bool = self.options.json;
        let (output, results) = self.close();
        (output, keep_owned(results, region, json))
    }

    /// Ends the scan: the report and all strings that were met, also those that
    /// another region owns.
    pub fn close(self) -> (r: (Vec<Piece>, Vec<ScanResult>))
        requires
            self.well_formed(),
        ensures
            pieces(r.0@) == final_output(self@),
            found_in(r.1@) == self@.found + leftover(self@),
    {
        let ghost v = self@;
        let RegionScanner { region, options, listing, offset, carry, output, results } = self;
        let mut output = output;
        let mut results = results;
        let ghost q = |f: Found| PieceView::Hit(f);
        let counts: bool = (!listing || !options.hex_only) && carry.bytes.len() > 0
            && carry.bytes.len() >= options.min_string && !(carry.suppress && carry.start
            == region.start) && carry.start < region.end;
        if counts {
            let r = ScanResult {
                offset: carry.start,
                length: carry.bytes.len(),
                encoding: Encoding::Ascii,
                text: text_from(&carry.bytes),
            };
            let ghost f = found_at(v.carry.start, v.carry.bytes);
            assert(r@ == f);
            if is_asked_for(options.json, &r) {
                if listing {
                    let ghost earlier = output@;
                    let piece = Piece::Hit(r.clone());
                    output.push(piece);
                    proof {
                        assert(pieces(output@) == pieces(earlier).push(piece@));
                        assert(leftover(v).map_values(q) == seq![q(f)]);
                    }
                }
                let ghost earlier = results@;
                results.push(r);
                proof {
                    assert(found_in(results@) == found_in(earlier).push(f));
                }
            }
        }
        proof {
            if leftover(v).len() == 0 {
                assert(leftover(v).map_values(q) == Seq::<PieceView>::empty());
            }
            assert(pieces(output@) == final_output(v));
            assert(found_in(results@) == v.found + leftover(v));
        }
        (output, results)
    }
}

/// Keeps the strings that a region owns and that are asked for.
pub fn keep_owned(results: Vec<ScanResult>, region: Region, json: bool) -> (kept: Vec<ScanResult>)
    ensures
        found_in(kept@) == found_in(results@).filter(|f: Found| owned(region, json, f)),
{
    let ghost p = |f: Found| owned(region, json, f);
    let ghost all = found_in(results@);
    let mut kept: Vec<ScanResult> = Vec::new();
    proof {
        reveal(Seq::filter);
        assert(all.take(0).filter(p) == Seq::<Found>::empty());
    }
    for r in it: results
        invariant
            p == |f: Found| owned(region, json, f),
            all == found_in(it.seq()),
            found_in(kept@) == all.take(it.index()).filter(p),
    {
        let ghost n = it.index();
        proof {
            reveal(Seq::filter);
            assert(all.take(n + 1).drop_last() == all.take(n));
            assert(all.take(n + 1).last() == r@);
        }
        if r.offset >= region.start && r.offset < region.end && is_asked_for(json, &r) {
            let ghost earlier = kept@;
            kept.push(r);
            assert(found_in(kept@) == found_in(earlier).push(r@));
        }
    }
    assert(all.take(all.len() as int) == all);
    kept
}

/// Law: a string is reported if it begins in front of the region's end and, where only JSON
/// structures are wanted, is one. Strings are reported one after the other.
pub proof fn law_what_is_reported(
    region: Region,
    json: bool,
    f: Found,
    a: Seq<Found>,
    b: Seq<Found>,
)
    ensures
        f.offset < region.end && (json ==> is_structure(f.text)) ==> hits(region, json, seq![f])
            == seq![PieceView::Hit(f)],
        !(f.offset < region.end && (json ==> is_structure(f.text))) ==> hits(
            region,
            json,
            seq![f],
        ).len() == 0,
        hits(region, json, a + b) == hits(region, json, a) + hits(region, json, b),
{
    let p = |g: Found| reported(region, json, g);
    let one = seq![f];
    assert(one.filter(p) == (if p(f) {
        one
    } else {
        Seq::<Found>::empty()
    })) by {
        reveal(Seq::filter);
        assert(one.drop_last() == Seq::<Found>::empty());
        assert(Seq::<Found>::empty().filter(p) == Seq::<Found>::empty());
        assert(Seq::<Found>::empty().push(f) == one);
    }
    if p(f) {
        assert(hits(region, json, one) =~= seq![PieceView::Hit(f)]);
    }
    Seq::filter_distributes_over_add(a, b, p);
    assert(hits(region, json, a + b) =~= hits(region, json, a) + hits(region, json, b));
}

/// Law: a region owns a string if it begins in it and, where only JSON structures are wanted, is
/// one.
pub proof fn law_what_is_owned(region: Region, json: bool, f: Found)
    ensures
        owned(region, json, f) <==> region.start <= f.offset < region.end && (json
            ==> is_structure(f.text)),
{
}

/// Law: what is unfinished when reading is over is a string, letter by letter its bytes, if it is
/// long enough, begins in front of the region's end and is not the tail of an earlier one, and,
/// where only JSON structures are wanted, is one. Else nothing comes of it.
pub proof fn law_what_becomes_of_the_unfinished(v: ScannerView)
    requires
        !v.listing || !v.options.hex_only,
        v.options.min_string >= 1,
    ensures
        ({
            let bytes = v.carry.bytes;
            let long = bytes.len() >= v.options.min_string;
            let tail = v.carry.suppress && v.carry.start == v.region.start;
            let s = leftover(v);
            &&& long && !tail && v.carry.start < v.region.end && !v.options.json ==> s.len() == 1
            &&& !long || tail || v.carry.start >= v.region.end ==> s.len() == 0
            &&& s.len() <= 1
            &&& s.len() == 1 ==> {
                &&& s[0].offset == v.carry.start
                &&& s[0].length == bytes.len()
                &&& s[0].text.len() == bytes.len()
                &&& forall|k: int|
                    0 <= k < bytes.len() ==> s[0].text[k] as int == #[trigger] bytes[k] as int
                &&& v.options.json ==> is_structure(s[0].text)
            }
        }),
{
}

} // verus!
