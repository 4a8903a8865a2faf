//! The printable strings of a file, as a matter of its bytes alone, and the
//! machine that finds them one byte at a time.
use crate::result::{Encoding, Found};
use vstd::prelude::*;

verus! {

/// A byte that belongs to a string: a space or a visible ASCII character.
pub open spec fn printable(b: u8) -> bool {
    0x20 <= b <= 0x7e
}

/// Bytes as the characters with the same numbers.
pub open spec fn text_of(bytes: Seq<u8>) -> Seq<char> {
    bytes.map_values(|b: u8| b as char)
}

/// The string that `bytes` make up at `start`.
pub open spec fn found_at(start: int, bytes: Seq<u8>) -> Found {
    Found {
        offset: start,
        length: bytes.len() as int,
        encoding: Encoding::Ascii,
        text: text_of(bytes),
    }
}

/// What the machine knows between two bytes.
pub struct RunState {
    /// The printable bytes that were met last.
    pub current: Seq<u8>,
    /// Where the first of them stands.
    pub start: int,
    /// Whether a string at the region's first byte is the tail of one that
    /// began before it.
    pub suppress: bool,
    /// The strings that have ended.
    pub found: Seq<Found>,
}

/// What the machine knows after the byte at `at`.
pub open spec fn run_step(
    st: RunState,
    byte: u8,
    at: int,
    min_string: nat,
    region_start: int,
) -> RunState {
    if printable(byte) {
        RunState {
            current: st.current.push(byte),
            start: if st.current.len() == 0 {
                at
            } else {
                st.start
            },
            ..st
        }
    } else if st.current.len() < min_string {
        RunState {
            current: Seq::empty(),
            suppress: st.suppress && st.start != region_start,
            ..st
        }
    } else if st.suppress && st.start == region_start {
        RunState { current: Seq::empty(), suppress: false, ..st }
    } else {
        RunState {
            current: Seq::empty(),
            suppress: false,
            found: st.found.push(found_at(st.start, st.current)),
            ..st
        }
    }
}

/// What the machine knows after `bytes`, the first of which stands at `base`.
pub open spec fn run_over(
    st: RunState,
    bytes: Seq<u8>,
    base: int,
    min_string: nat,
    region_start: int,
) -> RunState
    decreases bytes.len(),
{
    if bytes.len() == 0 {
        st
    } else {
        run_step(
            run_over(st, bytes.drop_last(), base, min_string, region_start),
            bytes.last(),
            base + bytes.len() - 1,
            min_string,
            region_start,
        )
    }
}

/// Whether a string of the file `d` begins at `a`.
pub open spec fn starts_string(d: Seq<u8>, a: int) -> bool {
    &&& 0 <= a < d.len()
    &&& printable(d[a])
    &&& a == 0 || !printable(d[a - 1])
}

/// The first place from `a` on that holds no printable byte.
pub open spec fn string_stop(d: Seq<u8>, a: int) -> int
    decreases d.len() - a,
{
    if 0 <= a < d.len() && printable(d[a]) {
        string_stop(d, a + 1)
    } else {
        a
    }
}

/// The string of the file `d` that begins at `a`.
pub open spec fn string_from(d: Seq<u8>, a: int) -> Found {
    found_at(a, d.subrange(a, string_stop(d, a)))
}

/// The strings of the file `d` that begin from `lo` up to but without `hi` and
/// have at least `min_string` bytes, in their order.
pub open spec fn strings_between(d: Seq<u8>, lo: int, hi: int, min_string: nat) -> Seq<Found>
    decreases hi - lo,
{
    if hi <= lo {
        Seq::empty()
    } else {
        let before = strings_between(d, lo, hi - 1, min_string);
        if starts_string(d, hi - 1) && string_stop(d, hi - 1) - (hi - 1) >= min_string {
            before.push(string_from(d, hi - 1))
        } else {
            before
        }
    }
}

/// The strings of the file `d`.
pub open spec fn strings_of(d: Seq<u8>, min_string: nat) -> Seq<Found> {
    strings_between(d, 0, d.len() as int, min_string)
}

pub proof fn lemma_string_stop(d: Seq<u8>, a: int)
    requires
        0 <= a <= d.len(),
    ensures
        a <= string_stop(d, a) <= d.len(),
        forall|k: int| a <= k < string_stop(d, a) ==> printable(#[trigger] d[k]),
        string_stop(d, a) < d.len() ==> !printable(d[string_stop(d, a)]),
    decreases d.len() - a,
{
    if a < d.len() && printable(d[a]) {
        lemma_string_stop(d, a + 1);
    }
}

/// A stretch of printable bytes that nothing printable follows ends a string.
pub proof fn lemma_string_stop_is(d: Seq<u8>, a: int, b: int)
    requires
        0 <= a <= b <= d.len(),
        forall|k: int| a <= k < b ==> printable(#[trigger] d[k]),
        b == d.len() || !printable(d[b]),
    ensures
        string_stop(d, a) == b,
    decreases b - a,
{
    if a < b {
        lemma_string_stop_is(d, a + 1, b);
    }
}

/// Places where no string begins add none.
pub proof fn lemma_no_starts(d: Seq<u8>, lo: int, mid: int, hi: int, min_string: nat)
    requires
        lo <= mid <= hi,
        forall|k: int| mid <= k < hi ==> !#[trigger] starts_string(d, k),
    ensures
        strings_between(d, lo, hi, min_string) == strings_between(d, lo, mid, min_string),
    decreases hi - mid,
{
    if mid < hi {
        lemma_no_starts(d, lo, mid, hi - 1, min_string);
        assert(!starts_string(d, hi - 1));
    }
}

/// Adjacent stretches are searched one after the other.
pub proof fn lemma_strings_join(d: Seq<u8>, lo: int, mid: int, hi: int, min_string: nat)
    requires
        lo <= mid <= hi,
    ensures
        strings_between(d, lo, hi, min_string) == strings_between(d, lo, mid, min_string)
            + strings_between(d, mid, hi, min_string),
    decreases hi - mid,
{
    if mid < hi {
        lemma_strings_join(d, lo, mid, hi - 1, min_string);
    }
}

/// Whether the machine, having gone over the bytes of `d` from `start` to `p`,
/// is in the middle of the printable stretch that begins at `c`.
pub open spec fn tracks(
    st: RunState,
    d: Seq<u8>,
    start: int,
    p: int,
    c: int,
    min_string: nat,
) -> bool {
    &&& 0 <= start <= c <= p <= d.len()
    &&& st.current == d.subrange(c, p)
    &&& forall|k: int| c <= k < p ==> printable(#[trigger] d[k])
    &&& c == start || !printable(d[c - 1])
    &&& c < p ==> st.start == c
    &&& c == start ==> st.suppress == (start > 0 && printable(d[start - 1]))
    &&& st.found == strings_between(d, start, c, min_string)
}

/// Where the printable stretch begins after one more byte.
pub open spec fn next_stretch(d: Seq<u8>, p: int, c: int) -> int {
    if printable(d[p]) {
        c
    } else {
        p + 1
    }
}

pub proof fn lemma_tracks_step(
    st: RunState,
    d: Seq<u8>,
    start: int,
    p: int,
    c: int,
    min_string: nat,
)
    requires
        tracks(st, d, start, p, c, min_string),
        p < d.len(),
        min_string >= 1,
    ensures
        tracks(
            run_step(st, d[p], p, min_string, start),
            d,
            start,
            p + 1,
            next_stretch(d, p, c),
            min_string,
        ),
{
    let next = run_step(st, d[p], p, min_string, start);
    if printable(d[p]) {
        assert(d.subrange(c, p + 1) == d.subrange(c, p).push(d[p]));
    } else {
        assert(d.subrange(p + 1, p + 1) == Seq::<u8>::empty());
        assert forall|k: int| c < k < p + 1 implies !#[trigger] starts_string(d, k) by {
            if k < p {
                assert(printable(d[k - 1]));
            }
        }
        lemma_no_starts(d, start, c + 1, p + 1, min_string);
        if c < p {
            lemma_string_stop_is(d, c, p);
            assert(string_from(d, c) == found_at(c, st.current));
            assert(printable(d[c]));
        }
        assert(strings_between(d, start, c + 1, min_string) == next.found);
    }
}

/// The machine goes over a stretch of `d`.
pub proof fn lemma_tracks_over(
    st: RunState,
    d: Seq<u8>,
    start: int,
    p: int,
    c: int,
    q: int,
    min_string: nat,
) -> (e: int)
    requires
        tracks(st, d, start, p, c, min_string),
        p <= q <= d.len(),
        min_string >= 1,
    ensures
        tracks(run_over(st, d.subrange(p, q), p, min_string, start), d, start, q, e, min_string),
    decreases q - p,
{
    if p == q {
        c
    } else {
        let e = lemma_tracks_over(st, d, start, p, c, q - 1, min_string);
        let bytes = d.subrange(p, q);
        assert(bytes.drop_last() == d.subrange(p, q - 1));
        lemma_tracks_step(
            run_over(st, d.subrange(p, q - 1), p, min_string, start),
            d,
            start,
            q - 1,
            e,
            min_string,
        );
        next_stretch(d, q - 1, e)
    }
}

/// The strings found earlier are kept in front.
pub proof fn lemma_run_over_found(
    st: RunState,
    earlier: Seq<Found>,
    bytes: Seq<u8>,
    base: int,
    min_string: nat,
    region_start: int,
)
    ensures
        ({
            let plain = run_over(st, bytes, base, min_string, region_start);
            let full = run_over(
                RunState { found: earlier + st.found, ..st },
                bytes,
                base,
                min_string,
                region_start,
            );
            full == RunState { found: earlier + plain.found, ..plain }
        }),
    decreases bytes.len(),
{
    if bytes.len() > 0 {
        lemma_run_over_found(st, earlier, bytes.drop_last(), base, min_string, region_start);
        let plain = run_over(st, bytes.drop_last(), base, min_string, region_start);
        assert(earlier + plain.found.push(found_at(plain.start, plain.current)) == (earlier
            + plain.found).push(found_at(plain.start, plain.current)));
    }
}

} // verus!
