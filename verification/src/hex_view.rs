//! The bytes around a string.
use crate::bounds::{align_line, lemma_line_start, less, line_start, min_u64, smaller};
use crate::cli::lemma_padded_hex;
use crate::dump::{
    column_tells, dotted_text, hex_byte, hex_bytes, law_hex_columns_tell_bytes,
    lemma_hex_bytes_at, letter_shows, push_dotted, push_hex_bytes,
};
use crate::number::{read_number, NumberFault};
use crate::result::{ends_with, format_with_commas, with_commas, Found, ScanResult};
use crate::text::{
    copies, decimal, digits, hex_padded, lemma_stands, occurs_in, pad_right, push_copies,
    push_decimal, push_hex, push_left_aligned,
};
use crate::tui::{filtered, lemma_passing, InteractiveApp};
use vstd::prelude::*;
use vstd::string::StringExecFns;

verus! {

/// Where the bytes shown around `offset` begin: `before` bytes ahead, at the
/// beginning of a line.
pub open spec fn context_start(offset: int, before: int) -> int {
    line_start(less(offset, before))
}

/// Where the bytes shown around `offset` stop in a file of `file_size` bytes.
pub open spec fn context_end(offset: int, after: int, file_size: int) -> int {
    smaller(offset + after + 32, file_size)
}

/// Where the bytes shown around `offset` begin, and how many there are.
pub fn context_window(file_size: u64, offset: u64, before: u64, after: u64) -> (w: (u64, u64))
    requires
        context_start(offset as int, before as int) <= context_end(
            offset as int,
            after as int,
            file_size as int,
        ),
    ensures
        w.0 == context_start(offset as int, before as int),
        w.0 + w.1 == context_end(offset as int, after as int, file_size as int),
{
    let start: u64 = align_line(offset.saturating_sub(before));
    let end: u64 = min_u64(offset.saturating_add(after).saturating_add(32), file_size);
    (start, end - start)
}

/// Whether there are bytes to show around `offset` or, at least, none too few.
pub fn has_context(file_size: u64, offset: u64, before: u64, after: u64) -> (r: bool)
    ensures
        r == (context_start(offset as int, before as int) <= context_end(
            offset as int,
            after as int,
            file_size as int,
        )),
{
    align_line(offset.saturating_sub(before)) <= min_u64(
        offset.saturating_add(after).saturating_add(32),
        file_size,
    )
}

/// The bytes of the file `data` that are shown around `offset`, and where they
/// begin.
pub fn read_hex_context(data: &[u8], offset: u64, before: u64, after: u64) -> (r: (u64, Vec<u8>))
    requires
        context_start(offset as int, before as int) <= context_end(
            offset as int,
            after as int,
            data@.len() as int,
        ),
    ensures
        r.0 == context_start(offset as int, before as int),
        r.1@ == data@.subrange(
            context_start(offset as int, before as int),
            context_end(offset as int, after as int, data@.len() as int),
        ),
{
    let (start, len) = context_window(data.len() as u64, offset, before, after);
    let mut bytes: Vec<u8> = Vec::new();
    let to: u64 = start + len;
    let mut at: u64 = start;
    while at < to
        invariant
            start <= at <= to <= data.len(),
            bytes@ == data@.subrange(start as int, at as int),
        decreases to - at,
    {
        bytes.push(data[at as usize]);
        at += 1;
    }
    (start, bytes)
}

/// Law: the bytes shown begin at the beginning of a line; if the string is inside
/// the file, its first byte is among them, with `before` bytes ahead of it and
/// `after` bytes behind it as far as the file has them.
pub proof fn law_context_holds_the_string(offset: int, before: int, after: int, file_size: int)
    requires
        0 <= offset < file_size,
        0 <= before,
        0 <= after,
    ensures
        context_start(offset, before) % 16 == 0,
        0 <= context_start(offset, before) <= less(offset, before),
        context_start(offset, before) <= offset < context_end(offset, after, file_size),
        smaller(offset + after, file_size) <= context_end(offset, after, file_size) <= file_size,
{
    lemma_line_start(less(offset, before));
}

/// Whether all bytes are zero.
pub open spec fn all_zero(bytes: Seq<u8>) -> bool {
    forall|i: int| 0 <= i < bytes.len() ==> bytes[i] == 0
}

/// Whether the bytes have to be read again: they came out as nothing but zeros.
pub fn reads_again(bytes: &Vec<u8>) -> (r: bool)
    ensures
        r == all_zero(bytes@),
{
    let mut i: usize = 0;
    while i < bytes.len()
        invariant
            i <= bytes.len(),
            forall|k: int| 0 <= k < i ==> bytes@[k] == 0,
        decreases bytes.len() - i,
    {
        if bytes[i] != 0 {
            return false;
        }
        i += 1;
    }
    true
}

/// The bytes that are shown, of a first reading and a second one.
pub open spec fn better_of(first: Seq<u8>, again: Seq<u8>) -> Seq<u8> {
    if all_zero(first) && again.len() > 0 {
        again
    } else {
        first
    }
}

/// Law: a reading with a byte other than zero is kept; one of zeros alone gives way to a second
/// one, unless that is empty.
pub proof fn law_better_reading(first: Seq<u8>, again: Seq<u8>, i: int)
    ensures
        0 <= i < first.len() && first[i] != 0 ==> better_of(first, again) == first,
        again.len() == 0 ==> better_of(first, again) == first,
        again.len() > 0 && (forall|k: int| 0 <= k < first.len() ==> #[trigger] first[k] == 0)
            ==> better_of(first, again) == again,
{
}

/// The bytes that are shown, of a first reading and a second one: the second only
/// where the first is nothing but zeros and the second is not empty.
pub fn better_reading(first: Vec<u8>, again: Vec<u8>) -> (r: Vec<u8>)
    ensures
        r@ == better_of(first@, again@),
{
    if again.len() > 0 && reads_again(&first) {
        again
    } else {
        first
    }
}

/// A line of the bytes around a string.
#[derive(Debug)]
pub enum HexLine {
    /// Up to sixteen bytes.
    Bytes {
        address: String,
        hex: String,
        ascii: String,
        /// Whether the string begins in this line.
        of_string: bool,
        /// What stands behind the line.
        marker: String,
    },
    /// The mark below the string's first byte.
    Caret(String),
}

/// What a `HexLine` says.
pub enum HexLineView {
    Bytes {
        address: Seq<char>,
        hex: Seq<char>,
        ascii: Seq<char>,
        of_string: bool,
        marker: Seq<char>,
    },
    Caret(Seq<char>),
}

impl View for HexLine {
    type V = HexLineView;

    open spec fn view(&self) -> HexLineView {
        match self {
            HexLine::Bytes { address, hex, ascii, of_string, marker } => HexLineView::Bytes {
                address: address@,
                hex: hex@,
                ascii: ascii@,
                of_string: *of_string,
                marker: marker@,
            },
            HexLine::Caret(s) => HexLineView::Caret(s@),
        }
    }
}

/// What lines say.
pub open spec fn hex_lines(lines: Seq<HexLine>) -> Seq<HexLineView> {
    lines.map_values(|l: HexLine| l@)
}

/// Whether the line at `address` has the byte at `offset`.
pub open spec fn in_line(address: int, offset: int) -> bool {
    address <= offset < address + 16
}

/// An address at the beginning of a line.
pub open spec fn address_text(address: int) -> Seq<char> {
    "0x"@ + hex_padded(address as nat, 8) + " "@
}

/// The line of the bytes at `address`, for a string that begins at `offset`.
pub open spec fn bytes_line(address: int, bytes: Seq<u8>, offset: int) -> HexLineView {
    HexLineView::Bytes {
        address: address_text(address),
        hex: pad_right(hex_bytes(bytes), 48),
        ascii: dotted_text(bytes),
        of_string: in_line(address, offset),
        marker: if address == line_start(offset) {
            " →"@
        } else {
            "  "@
        },
    }
}

/// How far right the mark below the byte at `offset` stands.
pub open spec fn caret_column(address: int, offset: int) -> int {
    11 + (offset - address) * 3 + 1
}

/// The mark below the byte at `offset` in the line at `address`.
pub open spec fn caret_line(address: int, offset: int) -> HexLineView {
    HexLineView::Caret(
        copies(' ', caret_column(address, offset) as nat) + "^  string starts 0x"@ + hex_padded(
            offset as nat,
            8,
        ),
    )
}

/// The lines of the bytes from `address` on, for a string that begins at `offset`:
/// sixteen bytes each, and the mark behind the line in which the string begins.
pub open spec fn context_lines(address: int, bytes: Seq<u8>, offset: int) -> Seq<HexLineView>
    decreases bytes.len(),
{
    if bytes.len() == 0 {
        Seq::empty()
    } else {
        let n = smaller(16, bytes.len() as int);
        let line = seq![bytes_line(address, bytes.take(n), offset)];
        let marked = if in_line(address, offset) {
            line.push(caret_line(address, offset))
        } else {
            line
        };
        marked + context_lines(address + 16, bytes.skip(n), offset)
    }
}

fn format_bytes_line(address: u64, bytes: &Vec<u8>, from: usize, to: usize, offset: u64) -> (l:
    HexLine)
    requires
        from < to <= bytes.len(),
        to - from <= 16,
    ensures
        l@ == bytes_line(
            address as int,
            bytes@.subrange(from as int, to as int),
            offset as int,
        ),
{
    let mut place = String::new();
    place.append("0x");
    push_hex(&mut place, address, 8);
    place.append(" ");
    let mut plain = String::new();
    push_hex_bytes(&mut plain, bytes.as_slice(), from, to);
    let mut hex = String::new();
    push_left_aligned(&mut hex, plain.as_str(), 48);
    let mut ascii = String::new();
    push_dotted(&mut ascii, bytes.as_slice(), from, to);
    let marker = if address == align_line(offset) {
        String::from_str(" →")
    } else {
        String::from_str("  ")
    };
    HexLine::Bytes {
        address: place,
        hex,
        ascii,
        of_string: address <= offset && offset - address < 16,
        marker,
    }
}

fn format_caret_line(address: u64, offset: u64) -> (l: HexLine)
    requires
        in_line(address as int, offset as int),
    ensures
        l@ == caret_line(address as int, offset as int),
{
    let mut s = String::new();
    push_copies(&mut s, ' ', 11 + (offset - address) as usize * 3 + 1);
    s.append("^  string starts 0x");
    push_hex(&mut s, offset, 8);
    HexLine::Caret(s)
}

fn format_context_lines(start: u64, bytes: &Vec<u8>, offset: u64) -> (lines: Vec<HexLine>)
    requires
        start + bytes.len() <= u64::MAX,
    ensures
        hex_lines(lines@) == context_lines(start as int, bytes@, offset as int),
{
    let ghost want = context_lines(start as int, bytes@, offset as int);
    let mut lines: Vec<HexLine> = Vec::new();
    let mut at: usize = 0;
    assert(bytes@.skip(0) == bytes@);
    assert(hex_lines(lines@) + want == want);
    while at < bytes.len()
        invariant
            at <= bytes.len(),
            start + bytes.len() <= u64::MAX,
            want == hex_lines(lines@) + context_lines(
                start + at,
                bytes@.skip(at as int),
                offset as int,
            ),
        decreases bytes.len() - at,
    {
        let n: usize = if bytes.len() - at < 16 {
            bytes.len() - at
        } else {
            16
        };
        let address: u64 = start + at as u64;
        let ghost rest = bytes@.skip(at as int);
        let ghost before = lines@;
        let ghost after = context_lines(address + 16, rest.skip(n as int), offset as int);
        assert(rest.take(n as int) == bytes@.subrange(at as int, at + n));
        assert(rest.skip(n as int) == bytes@.skip(at + n));
        lines.push(format_bytes_line(address, bytes, at, at + n, offset));
        let ghost one = lines@;
        assert(hex_lines(one) == hex_lines(before).push(one.last()@));
        if address <= offset && offset - address < 16 {
            lines.push(format_caret_line(address, offset));
            assert(hex_lines(lines@) == hex_lines(one).push(lines@.last()@));
        }
        assert(want == hex_lines(lines@) + after);
        at += n;
        if at == bytes.len() {
            assert(bytes@.skip(at as int) == Seq::<u8>::empty());
        }
    }
    assert(want == hex_lines(lines@));
    lines
}

/// What is shown of a string and the bytes around it.
#[derive(Debug)]
pub struct HexView {
    /// The string.
    pub text: String,
    /// Where it is.
    pub place: String,
    /// How long it is, and its encoding.
    pub size: String,
    /// The line above the bytes.
    pub heading: String,
    pub lines: Vec<HexLine>,
}

/// What is said of a string's place, given the text of its percentage.
pub open spec fn place_text(r: Found, file_size: nat, percent: Seq<char>) -> Seq<char> {
    " Offset: 0x"@ + hex_padded(r.offset as nat, 8) + "  Decimal: "@ + with_commas(
        r.offset as nat,
    ) + "  Position: "@ + percent + "%  "@ + with_commas(r.offset as nat) + "/"@ + with_commas(
        file_size,
    )
}

/// What is said of a string's length and encoding.
pub open spec fn size_text(r: Found) -> Seq<char> {
    " Length: "@ + decimal(r.length as nat) + " bytes  Encoding: "@ + r.encoding.name() + " "@
}

/// The line above the bytes.
pub open spec fn context_heading() -> Seq<char> {
    pad_right("Offset"@, 12) + "  "@ + pad_right("HEX"@, 48) + "  ASCII"@
}

/// Whether `h` shows the string `r` and the bytes from `start` on.
pub open spec fn shows(
    h: HexView,
    r: Found,
    start: int,
    bytes: Seq<u8>,
    file_size: nat,
    percent: Seq<char>,
) -> bool {
    &&& h.text@ == r.text
    &&& h.place@ == place_text(r, file_size, percent)
    &&& h.size@ == size_text(r)
    &&& h.heading@ == context_heading()
    &&& hex_lines(h.lines@) == context_lines(start, bytes, r.offset)
}

/// What is shown of the selected string, given the bytes around it and the text of
/// its percentage. Nothing, where no string is selected.
pub fn draw_hex_view(
    app: &InteractiveApp,
    start: u64,
    bytes: &Vec<u8>,
    file_size: u64,
    percent: &str,
) -> (view: Option<HexView>)
    requires
        start + bytes.len() <= u64::MAX,
    ensures
        match view {
            Some(h) => app.selected < filtered(app@).len() && shows(
                h,
                app@.results[filtered(app@)[app.selected as int]],
                start as int,
                bytes@,
                file_size as nat,
                percent@,
            ),
            None => app.selected >= filtered(app@).len(),
        },
{
    proof {
        lemma_passing(app@, app@.results.len());
    }
    let r: &ScanResult = match app.selected_result() {
        Some(r) => r,
        None => {
            return None;
        },
    };
    let mut place = String::new();
    place.append(" Offset: 0x");
    push_hex(&mut place, r.offset, 8);
    place.append("  Decimal: ");
    place.append(format_with_commas(r.offset).as_str());
    place.append("  Position: ");
    place.append(percent);
    place.append("%  ");
    place.append(format_with_commas(r.offset).as_str());
    place.append("/");
    place.append(format_with_commas(file_size).as_str());
    let mut size = String::new();
    size.append(" Length: ");
    push_decimal(&mut size, r.length as u64);
    size.append(" bytes  Encoding: ");
    size.append(r.encoding.label().as_str());
    size.append(" ");
    let mut heading = String::new();
    push_left_aligned(&mut heading, "Offset", 12);
    heading.append("  ");
    push_left_aligned(&mut heading, "HEX", 48);
    heading.append("  ASCII");
    let lines = format_context_lines(start, bytes, r.offset);
    Some(HexView { text: r.text.clone(), place, size, heading, lines })
}

/// How many marks there are among lines.
pub open spec fn carets(lines: Seq<HexLineView>) -> nat {
    lines.filter(|l: HexLineView| l is Caret).len()
}

/// Law: if the string's first byte is among the bytes shown, it is marked once; if
/// it is in front of them, nothing is marked.
pub proof fn law_string_is_marked_once(address: int, bytes: Seq<u8>, offset: int)
    ensures
        address <= offset < address + bytes.len() ==> carets(
            context_lines(address, bytes, offset),
        ) == 1,
        offset < address ==> carets(context_lines(address, bytes, offset)) == 0,
    decreases bytes.len(),
{
    let p = |l: HexLineView| l is Caret;
    if bytes.len() == 0 {
        Seq::<HexLineView>::empty().lemma_filter_len(p);
    } else {
        let n = smaller(16, bytes.len() as int);
        law_string_is_marked_once(address + 16, bytes.skip(n), offset);
        let shown = bytes_line(address, bytes.take(n), offset);
        let line = seq![shown];
        let both = line.push(caret_line(address, offset));
        let rest = context_lines(address + 16, bytes.skip(n), offset);
        Seq::<HexLineView>::empty().lemma_filter_len(p);
        Seq::<HexLineView>::empty().lemma_filter_len_push(p, shown);
        line.lemma_filter_len_push(p, caret_line(address, offset));
        Seq::filter_distributes_over_add(line, rest, p);
        Seq::filter_distributes_over_add(both, rest, p);
    }
}

/// Law: the mark stands below the second digit of the string's first byte, where
/// addresses have eight digits.
pub proof fn law_mark_is_below_first_byte(address: int, bytes: Seq<u8>, offset: int)
    requires
        0 <= address < 0x1_0000_0000,
        address <= offset < address + bytes.len(),
        bytes.len() <= 16,
    ensures
        ({
            let shown = address_text(address) + pad_right(hex_bytes(bytes), 48);
            let at = caret_column(address, offset);
            &&& 0 <= at < shown.len()
            &&& shown[at] == hex_byte(bytes[offset - address])[1]
        }),
{
    let k = offset - address;
    lemma_hex_bytes_at(bytes, k);
    lemma_address_len(address);
    let hex = hex_bytes(bytes);
    assert(hex.subrange(3 * k, 3 * k + 3)[1] == hex[3 * k + 1]);
}

proof fn lemma_address_len(address: int)
    requires
        0 <= address < 0x1_0000_0000,
    ensures
        address_text(address).len() == 11,
{
    reveal_strlit("0x");
    reveal_strlit(" ");
    reveal_with_fuel(digits, 9);
}

/// The lines of bytes among lines.
pub open spec fn byte_lines(lines: Seq<HexLineView>) -> Seq<HexLineView> {
    lines.filter(|l: HexLineView| l is Bytes)
}

/// Whether a line tells that `bytes` stand at `address`, for a string at `offset`: its
/// address reads back, three columns tell each byte, a character shows each, and it says
/// whether the string begins in it.
pub open spec fn hex_line_tells(
    l: HexLineView,
    address: int,
    bytes: Seq<u8>,
    offset: int,
) -> bool {
    l matches HexLineView::Bytes { address: place, hex, ascii, of_string, marker } && {
        &&& place.len() >= 11
        &&& place[0] == '0' && place[1] == 'x' && place.last() == ' '
        &&& read_number(place.subrange(2, place.len() - 1), 16, u64::MAX as nat) == Ok::<
            nat,
            NumberFault,
        >(address as nat)
        &&& hex.len() == 48
        &&& forall|k: int|
            0 <= k < bytes.len() ==> column_tells(hex, 3 * k, #[trigger] bytes[k])
        &&& forall|k: int| 3 * bytes.len() <= k < 48 ==> #[trigger] hex[k] == ' '
        &&& ascii.len() == bytes.len()
        &&& forall|k: int| 0 <= k < bytes.len() ==> letter_shows(ascii[k], #[trigger] bytes[k])
        &&& of_string <==> address <= offset < address + 16
        &&& address % 16 == 0 ==> (of_string <==> marker == " →"@)
    }
}

/// Where the `i`-th line of sixteen bytes begins.
pub open spec fn line_at(address: int, i: int) -> int {
    address + 16 * i
}

/// The `i`-th sixteen bytes, or as many as there are.
pub open spec fn sixteen(bytes: Seq<u8>, i: int) -> Seq<u8> {
    bytes.subrange(
        16 * i,
        if 16 * i + 16 <= bytes.len() {
            16 * i + 16
        } else {
            bytes.len() as int
        },
    )
}

/// Whether `lines` show `bytes` from `address` on, sixteen a line, every one of them.
pub open spec fn lines_tell(
    lines: Seq<HexLineView>,
    address: int,
    bytes: Seq<u8>,
    offset: int,
) -> bool {
    &&& lines.len() == (bytes.len() + 15) / 16
    &&& forall|i: int|
        0 <= i < lines.len() ==> hex_line_tells(
            #[trigger] lines[i],
            line_at(address, i),
            sixteen(bytes, i),
            offset,
        )
}

proof fn lemma_bytes_line_tells(address: int, bytes: Seq<u8>, offset: int)
    requires
        0 <= address <= u64::MAX,
        0 <= offset,
        bytes.len() <= 16,
    ensures
        hex_line_tells(bytes_line(address, bytes, offset), address, bytes, offset),
{
    reveal_strlit("0x");
    reveal_strlit(" ");
    reveal_strlit("  ");
    reveal_strlit(" →");
    let place = address_text(address);
    let number = hex_padded(address as nat, 8);
    let plain = hex_bytes(bytes);
    let hex = pad_right(plain, 48);
    lemma_padded_hex(address as u64, 8);
    law_hex_columns_tell_bytes(bytes);
    assert(number.len() >= 8);
    assert(place.subrange(2, place.len() - 1) == number);
    assert forall|k: int| 0 <= k < bytes.len() implies column_tells(
        hex,
        3 * k,
        #[trigger] bytes[k],
    ) by {
        assert(column_tells(plain, 3 * k, bytes[k]));
        assert(hex[3 * k] == plain[3 * k]);
        assert(hex[3 * k + 1] == plain[3 * k + 1]);
        assert(hex[3 * k + 2] == plain[3 * k + 2]);
    }
    assert(" →"@[1] != "  "@[1]);
}

/// Law: the lines of bytes shown from an address on are one for every sixteen bytes; the
/// i-th begins sixteen times i behind the address, says so, and shows its bytes, both in
/// hexadecimal and as characters. The line in which the string begins is marked as such.
pub proof fn law_context_lines_tell_bytes(address: int, bytes: Seq<u8>, offset: int)
    requires
        0 <= address,
        address + bytes.len() <= u64::MAX,
        0 <= offset,
    ensures
        lines_tell(byte_lines(context_lines(address, bytes, offset)), address, bytes, offset),
    decreases bytes.len(),
{
    if bytes.len() > 0 {
        let n = smaller(16, bytes.len() as int);
        let left = bytes.skip(n);
        lemma_byte_lines_step(address, bytes, offset);
        lemma_bytes_line_tells(address, bytes.take(n), offset);
        if bytes.len() > 16 {
            law_context_lines_tell_bytes(address + 16, left, offset);
        }
        let lines = byte_lines(context_lines(address, bytes, offset));
        let rest = byte_lines(context_lines(address + 16, left, offset));
        if bytes.len() <= 16 {
            assert(left == Seq::<u8>::empty());
            assert(context_lines(address + 16, left, offset) == Seq::<HexLineView>::empty());
            reveal(Seq::filter);
            assert(rest.len() == 0);
        }
        assert(sixteen(bytes, 0) == bytes.take(n));
        assert forall|i: int| 0 <= i < lines.len() implies hex_line_tells(
            #[trigger] lines[i],
            line_at(address, i),
            sixteen(bytes, i),
            offset,
        ) by {
            if i > 0 {
                assert(lines[i] == rest[i - 1]);
                assert(line_at(address + 16, i - 1) == line_at(address, i));
                assert(sixteen(left, i - 1) == sixteen(bytes, i));
            }
        }
    } else {
        reveal(Seq::filter);
    }
}

proof fn lemma_byte_lines_step(address: int, bytes: Seq<u8>, offset: int)
    requires
        bytes.len() > 0,
    ensures
        ({
            let n = smaller(16, bytes.len() as int);
            byte_lines(context_lines(address, bytes, offset)) == seq![
                bytes_line(address, bytes.take(n), offset),
            ] + byte_lines(context_lines(address + 16, bytes.skip(n), offset))
        }),
{
    let p = |l: HexLineView| l is Bytes;
    let n = smaller(16, bytes.len() as int);
    let line = seq![bytes_line(address, bytes.take(n), offset)];
    let both = line.push(caret_line(address, offset));
    let tail = context_lines(address + 16, bytes.skip(n), offset);
    Seq::filter_distributes_over_add(line, tail, p);
    Seq::filter_distributes_over_add(both, tail, p);
    assert(both.filter(p) == line && line.filter(p) == line) by {
        reveal(Seq::filter);
        assert(line.drop_last() == Seq::<HexLineView>::empty());
        assert(Seq::<HexLineView>::empty().filter(p) == Seq::<HexLineView>::empty());
        assert(line.filter(p) == line);
        assert(both.drop_last() == line);
    }
}

/// Law: what is said of a string holds its offset, in both ways, its length, its text and
/// the size of the file.
pub proof fn law_inspection_tells_the_string(r: Found, file_size: nat, percent: Seq<char>)
    ensures
        occurs_in("0x"@ + hex_padded(r.offset as nat, 8), place_text(r, file_size, percent)),
        occurs_in(
            with_commas(r.offset as nat) + "/"@ + with_commas(file_size),
            place_text(r, file_size, percent),
        ),
        occurs_in("Position: "@ + percent + "%"@, place_text(r, file_size, percent)),
        occurs_in(" "@ + decimal(r.length as nat) + " bytes"@, size_text(r)),
        occurs_in(r.encoding.name(), size_text(r)),
{
    reveal_strlit(" Offset: 0x");
    reveal_strlit("0x");
    reveal_strlit("%  ");
    reveal_strlit("%");
    reveal_strlit("/");
    reveal_strlit("  Position: ");
    reveal_strlit("Position: ");
    reveal_strlit(" Length: ");
    reveal_strlit(" ");
    reveal_strlit(" bytes  Encoding: ");
    reveal_strlit(" bytes");
    let hex = hex_padded(r.offset as nat, 8);
    let commas = with_commas(r.offset as nat);
    let head = " Offset: 0x"@ + hex + "  Decimal: "@ + commas;
    let text = place_text(r, file_size, percent);
    lemma_stands(text, "0x"@ + hex, 9);
    let upto = head + "  Position: "@ + percent + "%  "@;
    lemma_stands(text, commas + "/"@ + with_commas(file_size), upto.len() as int);
    lemma_stands(text, "Position: "@ + percent + "%"@, head.len() as int + 2);
    let size = size_text(r);
    let length = decimal(r.length as nat);
    lemma_stands(size, " "@ + length + " bytes"@, 8);
    lemma_stands(
        size,
        r.encoding.name(),
        (" Length: "@ + length + " bytes  Encoding: "@).len() as int,
    );
}

/// Law: the bytes shown begin less than a line further ahead than asked for, and end 32 bytes
/// further behind than asked for, or with the file.
pub proof fn law_context_is_as_asked(offset: int, before: int, after: int, file_size: int)
    requires
        0 <= offset < file_size,
        0 <= before,
        0 <= after,
    ensures
        ({
            let start = context_start(offset, before);
            let end = context_end(offset, after, file_size);
            &&& offset >= before ==> offset - before - 16 < start <= offset - before
            &&& offset < before ==> start == 0
            &&& start % 16 == 0
            &&& offset + after + 32 <= file_size ==> end == offset + after + 32
            &&& offset + after + 32 > file_size ==> end == file_size
        }),
{
    lemma_line_start(less(offset, before));
}

/// Whether a mark stands at a column, with nothing but spaces in front, and says the offset.
pub open spec fn mark_tells(l: HexLineView, column: int, offset: int) -> bool {
    l matches HexLineView::Caret(t) && {
        &&& 0 <= column < t.len()
        &&& t[column] == '^'
        &&& forall|i: int| 0 <= i < column ==> #[trigger] t[i] == ' '
        &&& ends_with(t, "0x"@ + hex_padded(offset as nat, 8))
    }
}

/// Law: the mark stands right behind the line in which the string begins, two characters for the
/// address, eight for its digits, one space, three for each byte in front and one more from the
/// left, and says where the string begins.
pub proof fn law_mark_follows_its_line(address: int, bytes: Seq<u8>, offset: int, k: int)
    requires
        0 <= k < context_lines(address, bytes, offset).len(),
        context_lines(address, bytes, offset)[k] is Caret,
        0 <= offset,
    ensures
        k > 0,
        context_lines(address, bytes, offset)[k - 1] is Bytes,
        context_lines(address, bytes, offset)[k - 1]->of_string,
        mark_tells(
            context_lines(address, bytes, offset)[k],
            12 + 3 * ((offset - address) % 16),
            offset,
        ),
    decreases bytes.len(),
{
    let lines = context_lines(address, bytes, offset);
    let n = smaller(16, bytes.len() as int);
    let left = bytes.skip(n);
    let rest = context_lines(address + 16, left, offset);
    let own: int = if in_line(address, offset) {
        2
    } else {
        1
    };
    let first = bytes_line(address, bytes.take(n), offset);
    if k >= own {
        assert(lines[k] == rest[k - own]);
        law_mark_follows_its_line(address + 16, left, offset, k - own);
        assert(lines[k - 1] == rest[k - own - 1]);
        lemma_same_column(address, offset);
    } else {
        assert(lines[0] == first);
        assert(k == 1 && in_line(address, offset));
        assert(lines[1] == caret_line(address, offset));
        lemma_mark_tells(address, offset);
    }
}

proof fn lemma_same_column(address: int, offset: int)
    ensures
        (offset - (address + 16)) % 16 == (offset - address) % 16,
{
}

proof fn lemma_mark_tells(address: int, offset: int)
    requires
        in_line(address, offset),
    ensures
        mark_tells(caret_line(address, offset), 12 + 3 * ((offset - address) % 16), offset),
{
    reveal_strlit("^  string starts 0x");
    reveal_strlit("0x");
    let t = caret_line(address, offset)->Caret_0;
    let end = "0x"@ + hex_padded(offset as nat, 8);
    assert(t.skip(t.len() - end.len()) =~= end);
}

/// Law: bytes are read again if and only if none of them is other than zero.
pub proof fn law_zeros_are_read_again(bytes: Seq<u8>)
    ensures
        !all_zero(bytes) <==> exists|i: int| 0 <= i < bytes.len() && bytes[i] != 0,
{
}

/// Law: what is shown of a string is its whole text, where it is and how long it is, and the bytes
/// around it, each at its address.
pub proof fn law_view_shows_the_string(
    h: HexView,
    r: Found,
    start: int,
    bytes: Seq<u8>,
    file_size: nat,
    percent: Seq<char>,
)
    requires
        shows(h, r, start, bytes, file_size, percent),
        0 <= start,
        start + bytes.len() <= u64::MAX,
        0 <= r.offset,
    ensures
        h.text@ == r.text,
        lines_tell(byte_lines(hex_lines(h.lines@)), start, bytes, r.offset),
        occurs_in("0x"@ + hex_padded(r.offset as nat, 8), h.place@),
        occurs_in(" "@ + decimal(r.length as nat) + " bytes"@, h.size@),
        start <= r.offset < start + bytes.len() ==> carets(hex_lines(h.lines@)) == 1,
{
    law_context_lines_tell_bytes(start, bytes, r.offset);
    law_inspection_tells_the_string(r, file_size, percent);
    law_string_is_marked_once(start, bytes, r.offset);
}

} // verus!
