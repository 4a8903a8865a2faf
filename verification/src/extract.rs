//! Taking the strings out of one read after another.
use crate::result::{found_in, Encoding, Found, ScanResult};
use crate::runs::{found_at, printable, run_over, text_of, RunState};
use vstd::prelude::*;

verus! {

/// Whether a byte belongs to a string.
pub fn is_printable(b: u8) -> (r: bool)
    ensures
        r == printable(b),
{
    0x20 <= b && b <= 0x7e
}

/// The text that printable bytes make up.
pub fn text_from(bytes: &Vec<u8>) -> (s: String)
    ensures
        s@ == text_of(bytes@),
        s@.len() == bytes@.len(),
        forall|k: int| 0 <= k < bytes@.len() ==> #[trigger] s@[k] as int == bytes@[k] as int,
{
    let mut s = String::new();
    let mut i: usize = 0;
    while i < bytes.len()
        invariant
            i <= bytes.len(),
            s@ == text_of(bytes@.take(i as int)),
        decreases bytes.len() - i,
    {
        s.push(bytes[i] as char);
        assert(text_of(bytes@.take(i + 1)) == text_of(bytes@.take(i as int)).push(
            bytes@[i as int] as char,
        ));
        i += 1;
    }
    assert(bytes@.take(bytes.len() as int) == bytes@);
    s
}

/// The unfinished string at the end of one read, to be taken up by the next.
#[derive(Debug)]
pub struct Carry {
    /// Its bytes so far.
    pub bytes: Vec<u8>,
    /// Where it begins; left over from an earlier one if there are no bytes.
    pub start: u64,
    /// Whether a string at the region's first byte is the tail of one that
    /// began before it.
    pub suppress: bool,
}

/// What a `Carry` says.
pub struct CarryState {
    pub bytes: Seq<u8>,
    pub start: int,
    pub suppress: bool,
}

impl View for Carry {
    type V = CarryState;

    open spec fn view(&self) -> CarryState {
        CarryState { bytes: self.bytes@, start: self.start as int, suppress: self.suppress }
    }
}

/// Whether all bytes are printable.
pub open spec fn all_printable(bytes: Seq<u8>) -> bool {
    forall|i: int| 0 <= i < bytes.len() ==> printable(#[trigger] bytes[i])
}

/// The machine as it is when a read begins.
pub open spec fn resumed(carry: CarryState) -> RunState {
    RunState {
        current: carry.bytes,
        start: carry.start,
        suppress: carry.suppress,
        found: Seq::empty(),
    }
}

/// What is carried on from a read, and the strings that end in it.
pub open spec fn extracted(
    carry: CarryState,
    bytes: Seq<u8>,
    base: int,
    min_string: nat,
    region_start: int,
) -> (CarryState, Seq<Found>) {
    let done = run_over(resumed(carry), bytes, base, min_string, region_start);
    (
        CarryState {
            bytes: done.current,
            start: if done.current.len() > 0 {
                done.start
            } else {
                carry.start
            },
            suppress: done.suppress,
        },
        done.found,
    )
}

/// Takes the strings that end in `bytes`, which stand at `base_offset`; the tail
/// of a string that began before the region is dropped.
pub fn extract_strings_simple_suppress(
    bytes: &[u8],
    base_offset: u64,
    carry: &mut Carry,
    min_string: usize,
    results: &mut Vec<ScanResult>,
    region_start: u64,
)
    requires
        all_printable(old(carry).bytes@),
        base_offset + bytes.len() <= u64::MAX + 1,
    ensures
        all_printable(final(carry).bytes@),
        ({
            let e = extracted(
                old(carry)@,
                bytes@,
                base_offset as int,
                min_string as nat,
                region_start as int,
            );
            &&& final(carry)@ == e.0
            &&& found_in(final(results)@) == found_in(old(results)@) + e.1
        }),
        final(results)@.take(old(results)@.len() as int) == old(results)@,
{
    let ghost before = carry@;
    let ghost results0 = results@;
    let mut current: Vec<u8> = Vec::new();
    std::mem::swap(&mut current, &mut carry.bytes);
    let mut start: u64 = carry.start;
    let mut suppress: bool = carry.suppress;
    let mut i: usize = 0;
    assert(found_in(results@) == found_in(results0) + Seq::<Found>::empty());
    while i < bytes.len()
        invariant
            i <= bytes.len(),
            base_offset + bytes.len() <= u64::MAX + 1,
            all_printable(current@),
            results0.len() <= results.len(),
            results@.take(results0.len() as int) == results0,
            ({
                let st = run_over(
                    resumed(before),
                    bytes@.take(i as int),
                    base_offset as int,
                    min_string as nat,
                    region_start as int,
                );
                &&& st.current == current@
                &&& st.start == start
                &&& st.suppress == suppress
                &&& found_in(results@) == found_in(results0) + st.found
            }),
            carry.start == before.start,
        decreases bytes.len() - i,
    {
        let ghost st = run_over(
            resumed(before),
            bytes@.take(i as int),
            base_offset as int,
            min_string as nat,
            region_start as int,
        );
        proof {
            assert(bytes@.take(i + 1).drop_last() == bytes@.take(i as int));
            assert(bytes@.take(i + 1).last() == bytes@[i as int]);
        }
        let byte: u8 = bytes[i];
        if is_printable(byte) {
            if current.len() == 0 {
                start = base_offset + i as u64;
            }
            current.push(byte);
        } else {
            if current.len() >= min_string {
                if suppress && start == region_start {
                    suppress = false;
                } else {
                    suppress = false;
                    let r = ScanResult {
                        offset: start,
                        length: current.len(),
                        encoding: Encoding::Ascii,
                        text: text_from(&current),
                    };
                    let ghost earlier = results@;
                    results.push(r);
                    proof {
                        assert(r@ == found_at(st.start, st.current));
                        assert(found_in(results@) == found_in(earlier).push(r@));
                        assert(found_in(results@) == found_in(results0) + st.found.push(r@));
                    }
                }
            } else if suppress && start == region_start {
                suppress = false;
            }
            current = Vec::new();
            assert(current@ == Seq::<u8>::empty());
        }
        i += 1;
    }
    assert(bytes@.take(bytes.len() as int) == bytes@);
    if current.len() > 0 {
        carry.start = start;
    }
    carry.bytes = current;
    carry.suppress = suppress;
}

/// Takes the strings that end in `bytes`, which stand at `base_offset`, whatever
/// comes before them.
pub fn extract_strings_simple(
    bytes: &[u8],
    base_offset: u64,
    carry: &mut Vec<u8>,
    carry_start: &mut u64,
    min_string: usize,
    results: &mut Vec<ScanResult>,
)
    requires
        all_printable(old(carry)@),
        base_offset + bytes.len() <= u64::MAX + 1,
    ensures
        all_printable(final(carry)@),
        ({
            let e = extracted(
                CarryState { bytes: old(carry)@, start: *old(carry_start) as int, suppress: false },
                bytes@,
                base_offset as int,
                min_string as nat,
                0,
            );
            &&& final(carry)@ == e.0.bytes
            &&& *final(carry_start) == e.0.start
            &&& found_in(final(results)@) == found_in(old(results)@) + e.1
        }),
{
    let mut taken: Vec<u8> = Vec::new();
    std::mem::swap(&mut taken, carry);
    let mut whole = Carry { bytes: taken, start: *carry_start, suppress: false };
    extract_strings_simple_suppress(bytes, base_offset, &mut whole, min_string, results, 0);
    *carry_start = whole.start;
    *carry = whole.bytes;
}

/// What a read leaves of the region's first string and what it leaves otherwise, with
/// the tail of an earlier string dropped (`st`) and kept (`all`).
spec fn beside(st: RunState, all: RunState, seen: Seq<u8>, base: int) -> bool {
    &&& st.current == all.current
    &&& st.start == all.start
    &&& !all.suppress
    &&& st.found == all.found.filter(|f: Found| f.offset != base)
    &&& all_printable(seen) ==> st.suppress && all.found.len() == 0 && (seen.len() > 0
        ==> st.start == base && st.current.len() == seen.len())
    &&& !all_printable(seen) ==> !st.suppress && (st.current.len() > 0 ==> st.start > base)
}

proof fn lemma_beside(start: int, bytes: Seq<u8>, base: int, min_string: nat)
    requires
        min_string >= 1,
        bytes.len() > 0,
        printable(bytes[0]),
    ensures
        beside(
            run_over(
                resumed(CarryState { bytes: Seq::empty(), start, suppress: true }),
                bytes,
                base,
                min_string,
                base,
            ),
            run_over(
                resumed(CarryState { bytes: Seq::empty(), start, suppress: false }),
                bytes,
                base,
                min_string,
                0,
            ),
            bytes,
            base,
        ),
    decreases bytes.len(),
{
    let dropping = resumed(CarryState { bytes: Seq::empty(), start, suppress: true });
    let keeping = resumed(CarryState { bytes: Seq::empty(), start, suppress: false });
    let p = |f: Found| f.offset != base;
    let front = bytes.drop_last();
    let st = run_over(dropping, front, base, min_string, base);
    let all = run_over(keeping, front, base, min_string, 0);
    reveal(Seq::filter);
    if front.len() == 0 {
        assert(st == dropping);
        assert(all == keeping);
        assert(bytes.last() == bytes[0]);
        assert(keeping.found.filter(p) == Seq::<Found>::empty());
        assert(all_printable(bytes));
    } else {
        lemma_beside(start, front, base, min_string);
        let last = bytes.last();
        assert(last == bytes[bytes.len() - 1]);
        assert(all_printable(bytes) == (all_printable(front) && printable(last))) by {
            if all_printable(bytes) {
                assert forall|i: int| 0 <= i < front.len() implies printable(
                    #[trigger] front[i],
                ) by {
                    assert(printable(bytes[i]));
                }
            }
            if all_printable(front) && printable(last) {
                assert forall|i: int| 0 <= i < bytes.len() implies printable(
                    #[trigger] bytes[i],
                ) by {
                    if i < front.len() {
                        assert(printable(front[i]));
                    }
                }
            }
        }
        let f = found_at(all.start, all.current);
        assert(all.found.push(f).drop_last() == all.found);
        assert(all.found.push(f).last() == f);
        if all_printable(front) {
            assert(all.found == Seq::<Found>::empty());
        }
    }
}

/// Law: at a region's first byte, inside a string that began before, dropping that
/// string's tail leaves what keeping it leaves but for the string at the region's
/// beginning. The tail is waited for as long as all bytes are printable. Where there is
/// no such tail, nothing differs.
pub proof fn law_suppression_drops_only_the_first(
    start: int,
    bytes: Seq<u8>,
    region_start: int,
    min_string: nat,
)
    requires
        min_string >= 1,
        bytes.len() > 0,
        printable(bytes[0]),
    ensures
        ({
            let empty = Seq::<u8>::empty();
            let inside = CarryState { bytes: empty, start, suppress: true };
            let outside = CarryState { bytes: empty, start, suppress: false };
            let kept = extracted(outside, bytes, region_start, min_string, 0);
            let dropped = extracted(inside, bytes, region_start, min_string, region_start);
            let same = extracted(outside, bytes, region_start, min_string, region_start);
            &&& dropped.0.bytes == kept.0.bytes
            &&& dropped.0.start == kept.0.start
            &&& dropped.1 == kept.1.filter(|f: Found| f.offset != region_start)
            &&& dropped.0.suppress == all_printable(bytes)
            &&& same == kept
            &&& !same.0.suppress
        }),
{
    lemma_beside(start, bytes, region_start, min_string);
    lemma_nothing_to_suppress(
        resumed(CarryState { bytes: Seq::empty(), start, suppress: false }),
        bytes,
        region_start,
        min_string,
        0,
        region_start,
    );
}

/// Where no tail is waited for, it does not matter where the region begins.
pub(crate) proof fn lemma_nothing_to_suppress(
    st: RunState,
    bytes: Seq<u8>,
    base: int,
    min_string: nat,
    one: int,
    other: int,
)
    requires
        !st.suppress,
    ensures
        run_over(st, bytes, base, min_string, one) == run_over(st, bytes, base, min_string, other),
        !run_over(st, bytes, base, min_string, one).suppress,
    decreases bytes.len(),
{
    if bytes.len() > 0 {
        lemma_nothing_to_suppress(st, bytes.drop_last(), base, min_string, one, other);
    }
}

} // verus!
