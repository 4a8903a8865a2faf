//! The bytes of the range as a table.
use crate::bounds::{align_line, lemma_line_start, less, line_start, min_u64, smaller};
use crate::cli::lemma_padded_hex;
use crate::dump::{column_tells, dotted, dotted_char, hex_byte, lemma_hex_byte_tells, letter_shows};
use crate::extract::is_printable;
use crate::hex_view::{line_at, sixteen};
use crate::layout::{body_rows, rows_in};
use crate::number::{read_number, NumberFault};
use crate::runs::printable;
use crate::screen::{push_range, range_text};
use crate::text::{decimal, hex_padded, lemma_stands, occurs_in, push_decimal, push_hex};
use crate::tui::{AppView, InteractiveApp};
use vstd::prelude::*;
use vstd::string::StringExecFns;

verus! {

/// How a text of the byte view stands out.
#[derive(Debug, Clone, Copy, PartialEq, Eq, Structural)]
pub enum Tint {
    Plain,
    /// On the cursor.
    Cursor,
    /// In the cursor's line.
    Line,
    /// A printable character.
    Printable,
    /// The dot of a byte that is not printable.
    Dot,
}

/// A text and how it stands out.
#[derive(Debug)]
pub struct Tinted {
    pub text: String,
    pub tint: Tint,
}

/// What a `Tinted` says.
pub struct TintedView {
    pub text: Seq<char>,
    pub tint: Tint,
}

impl View for Tinted {
    type V = TintedView;

    open spec fn view(&self) -> TintedView {
        TintedView { text: self.text@, tint: self.tint }
    }
}

/// What texts say.
pub open spec fn tinted(v: Seq<Tinted>) -> Seq<TintedView> {
    v.map_values(|t: Tinted| t@)
}

/// A line of the byte view.
#[derive(Debug)]
pub struct RawRow {
    pub address: String,
    pub hex: Vec<Tinted>,
    pub ascii: Vec<Tinted>,
    /// Whether the cursor is in it.
    pub cursor_line: bool,
}

/// What a `RawRow` says.
pub struct RawRowView {
    pub address: Seq<char>,
    pub hex: Seq<TintedView>,
    pub ascii: Seq<TintedView>,
    pub cursor_line: bool,
}

impl View for RawRow {
    type V = RawRowView;

    open spec fn view(&self) -> RawRowView {
        RawRowView {
            address: self.address@,
            hex: tinted(self.hex@),
            ascii: tinted(self.ascii@),
            cursor_line: self.cursor_line,
        }
    }
}

/// What lines say.
pub open spec fn raw_views(rows: Seq<RawRow>) -> Seq<RawRowView> {
    rows.map_values(|r: RawRow| r@)
}

/// Whether the cursor is in the line at `address`.
pub open spec fn on_line(address: int, cursor: int) -> bool {
    address <= cursor < address + 16
}

/// How the hexadecimal digits of the `j`-th byte of a line stand out.
pub open spec fn hex_tint(address: int, j: int, cursor: int) -> Tint {
    if address + j == cursor {
        Tint::Cursor
    } else if on_line(address, cursor) {
        Tint::Line
    } else {
        Tint::Plain
    }
}

/// How the character of the `j`-th byte of a line stands out.
pub open spec fn ascii_tint(address: int, j: int, b: u8, cursor: int) -> Tint {
    if address + j == cursor {
        Tint::Cursor
    } else if printable(b) {
        Tint::Printable
    } else {
        Tint::Dot
    }
}

/// Plain texts, `n` of one.
pub open spec fn fill(text: Seq<char>, n: nat) -> Seq<TintedView> {
    Seq::new(n, |i: int| TintedView { text, tint: Tint::Plain })
}

/// The hexadecimal side of a line, with a gap in front of the ninth byte.
pub open spec fn hex_cells(address: int, bytes: Seq<u8>, cursor: int) -> Seq<TintedView>
    decreases bytes.len(),
{
    if bytes.len() == 0 {
        Seq::empty()
    } else {
        let j = bytes.len() - 1;
        let front = hex_cells(address, bytes.drop_last(), cursor);
        let gap = if j == 8 {
            fill(" "@, 1)
        } else {
            Seq::empty()
        };
        (front + gap).push(
            TintedView { text: hex_byte(bytes.last()), tint: hex_tint(address, j, cursor) },
        )
    }
}

/// The characters of a line.
pub open spec fn ascii_cells(address: int, bytes: Seq<u8>, cursor: int) -> Seq<TintedView> {
    Seq::new(
        bytes.len(),
        |j: int|
            TintedView {
                text: seq![dotted(bytes[j])],
                tint: ascii_tint(address, j, bytes[j], cursor),
            },
    )
}

/// A line of up to sixteen bytes, filled up if there are fewer.
pub open spec fn raw_row(address: int, bytes: Seq<u8>, cursor: int) -> RawRowView {
    let missing = less(16, bytes.len() as int) as nat;
    RawRowView {
        address: "0x"@ + hex_padded(address as nat, 8),
        hex: hex_cells(address, bytes, cursor) + fill("   "@, missing),
        ascii: ascii_cells(address, bytes, cursor) + fill(" "@, missing),
        cursor_line: on_line(address, cursor),
    }
}

/// The lines of the bytes from `address` on.
pub open spec fn raw_rows(address: int, bytes: Seq<u8>, cursor: int) -> Seq<RawRowView>
    decreases bytes.len(),
{
    if bytes.len() == 0 {
        Seq::empty()
    } else {
        let n = smaller(16, bytes.len() as int);
        seq![raw_row(address, bytes.take(n), cursor)] + raw_rows(
            address + 16,
            bytes.skip(n),
            cursor,
        )
    }
}

/// What stands in place of lines where there are none.
pub open spec fn no_data() -> RawRowView {
    RawRowView {
        address: Seq::empty(),
        hex: seq![TintedView { text: "No data in range"@, tint: Tint::Plain }],
        ascii: Seq::empty(),
        cursor_line: false,
    }
}

/// Where the bytes on the screen begin, and how many there are, in a body of the
/// given height.
pub open spec fn raw_window(v: AppView, height: int) -> (int, int) {
    let start = line_start(v.hex_offset);
    (start, less(smaller(start + rows_in(height) * 16, v.range_end), start))
}

/// The title above the bytes.
pub open spec fn raw_title(v: AppView) -> Seq<char> {
    " Hex Dump  "@ + range_text(v.range_start, v.range_end) + "  Cursor: 0x"@ + hex_padded(
        v.hex_cursor as nat,
        8,
    ) + " "@
}

/// The title below the bytes.
pub open spec fn raw_help(height: int) -> Seq<char> {
    " "@ + decimal(rows_in(height) as nat) + " rows  [G] Goto  [Q] Quit "@
}

/// The bytes as they are shown.
#[derive(Debug)]
pub struct RawView {
    pub title: String,
    pub help: String,
    pub rows: Vec<RawRow>,
}

/// Whether `r` shows `bytes`, which begin where the byte view of `v` does.
pub open spec fn shows_bytes(r: RawView, v: AppView, height: int, bytes: Seq<u8>) -> bool {
    &&& r.title@ == raw_title(v)
    &&& r.help@ == raw_help(height)
    &&& raw_views(r.rows@) == (if bytes.len() == 0 {
        seq![no_data()]
    } else {
        raw_rows(line_start(v.hex_offset), bytes, v.hex_cursor)
    })
}

impl InteractiveApp {
    /// Where the bytes on the screen begin, and how many there are.
    pub fn byte_window(&self, height: u16) -> (w: (u64, u64))
        ensures
            (w.0 as int, w.1 as int) == raw_window(self@, height as int),
    {
        let start: u64 = align_line(self.hex_offset);
        let past: u64 = start.saturating_add(body_rows(height) as u64 * 16);
        (start, min_u64(past, self.range_end).saturating_sub(start))
    }
}

fn push_fill(out: &mut Vec<Tinted>, text: &str, n: usize)
    ensures
        tinted(final(out)@) == tinted(old(out)@) + fill(text@, n as nat),
{
    let mut i: usize = 0;
    while i < n
        invariant
            i <= n,
            tinted(out@) == tinted(old(out)@) + fill(text@, i as nat),
        decreases n - i,
    {
        let ghost before = out@;
        out.push(Tinted { text: String::from_str(text), tint: Tint::Plain });
        assert(tinted(out@) == tinted(before).push(out@.last()@));
        assert(fill(text@, (i + 1) as nat) == fill(text@, i as nat).push(out@.last()@));
        i += 1;
    }
}

fn format_raw_row(address: u64, bytes: &Vec<u8>, from: usize, to: usize, cursor: u64) -> (row:
    RawRow)
    requires
        from < to <= bytes.len(),
        to - from <= 16,
    ensures
        row@ == raw_row(
            address as int,
            bytes@.subrange(from as int, to as int),
            cursor as int,
        ),
{
    let ghost all = bytes@.subrange(from as int, to as int);
    let cursor_line: bool = cursor >= address && cursor - address < 16;
    let mut place = String::new();
    place.append("0x");
    push_hex(&mut place, address, 8);
    let mut hex: Vec<Tinted> = Vec::new();
    let mut ascii: Vec<Tinted> = Vec::new();
    let mut j: usize = 0;
    assert(tinted(hex@) == hex_cells(address as int, all.take(0), cursor as int));
    assert(tinted(ascii@) == ascii_cells(address as int, all.take(0), cursor as int));
    while j < to - from
        invariant
            j <= to - from <= 16,
            from < to <= bytes.len(),
            all == bytes@.subrange(from as int, to as int),
            cursor_line == on_line(address as int, cursor as int),
            tinted(hex@) == hex_cells(address as int, all.take(j as int), cursor as int),
            tinted(ascii@) == ascii_cells(address as int, all.take(j as int), cursor as int),
        decreases to - from - j,
    {
        let b: u8 = bytes[from + j];
        let on_byte: bool = cursor_line && cursor - address == j as u64;
        let ghost next = all.take(j + 1);
        let ghost hex_before = tinted(hex@);
        let ghost ascii_before = tinted(ascii@);
        proof {
            assert(next.drop_last() == all.take(j as int));
            assert(next.last() == b);
        }
        if j == 8 {
            push_fill(&mut hex, " ", 1);
        }
        let ghost gapped = hex@;
        let mut digits_text = String::new();
        push_hex(&mut digits_text, b as u64, 2);
        digits_text.append(" ");
        assert(digits_text@ == hex_byte(b)) by {
            reveal_strlit(" ");
        }
        let hex_tint = if on_byte {
            Tint::Cursor
        } else if cursor_line {
            Tint::Line
        } else {
            Tint::Plain
        };
        hex.push(Tinted { text: digits_text, tint: hex_tint });
        assert(tinted(hex@) == tinted(gapped).push(hex@.last()@));
        assert(tinted(hex@) == hex_cells(address as int, next, cursor as int));
        let mut shown = String::new();
        shown.push(dotted_char(b));
        let ascii_tint = if on_byte {
            Tint::Cursor
        } else if is_printable(b) {
            Tint::Printable
        } else {
            Tint::Dot
        };
        let ghost old_ascii = ascii@;
        ascii.push(Tinted { text: shown, tint: ascii_tint });
        assert(shown@ == seq![dotted(b)]);
        assert(tinted(ascii@) == tinted(old_ascii).push(ascii@.last()@));
        assert(tinted(ascii@) == ascii_cells(address as int, next, cursor as int));
        j += 1;
    }
    assert(all.take(j as int) == all);
    push_fill(&mut hex, "   ", 16 - (to - from));
    push_fill(&mut ascii, " ", 16 - (to - from));
    RawRow { address: place, hex, ascii, cursor_line }
}

/// The bytes on the screen as they are shown. They begin where `byte_window` says.
pub fn draw_raw_hex(app: &InteractiveApp, height: u16, bytes: &Vec<u8>) -> (view: RawView)
    requires
        line_start(app.hex_offset as int) + bytes.len() <= u64::MAX,
    ensures
        shows_bytes(view, app@, height as int, bytes@),
{
    let start: u64 = align_line(app.hex_offset);
    let cursor: u64 = app.hex_cursor;
    let ghost want = raw_rows(start as int, bytes@, cursor as int);
    let mut rows: Vec<RawRow> = Vec::new();
    let mut at: usize = 0;
    assert(bytes@.skip(0) == bytes@);
    assert(raw_views(rows@) + want == want);
    while at < bytes.len()
        invariant
            at <= bytes.len(),
            start + bytes.len() <= u64::MAX,
            want == raw_views(rows@) + raw_rows(
                start + at,
                bytes@.skip(at as int),
                cursor as int,
            ),
        decreases bytes.len() - at,
    {
        let n: usize = if bytes.len() - at < 16 {
            bytes.len() - at
        } else {
            16
        };
        let ghost rest = bytes@.skip(at as int);
        let ghost before = rows@;
        assert(rest.take(n as int) == bytes@.subrange(at as int, at + n));
        assert(rest.skip(n as int) == bytes@.skip(at + n));
        rows.push(format_raw_row(start + at as u64, bytes, at, at + n, cursor));
        assert(raw_views(rows@) == raw_views(before).push(rows@.last()@));
        assert(want == raw_views(rows@) + raw_rows(
            start + at + 16,
            rest.skip(n as int),
            cursor as int,
        ));
        at += n;
        if at == bytes.len() {
            assert(bytes@.skip(at as int) == Seq::<u8>::empty());
        }
    }
    assert(want == raw_views(rows@));
    if rows.len() == 0 {
        let mut hex: Vec<Tinted> = Vec::new();
        push_no_data(&mut hex);
        let empty: Vec<Tinted> = Vec::new();
        rows.push(RawRow { address: String::new(), hex, ascii: empty, cursor_line: false });
        assert(rows@.last()@ == no_data()) by {
            assert(tinted(empty@) == Seq::<TintedView>::empty());
        }
        assert(raw_views(rows@) == seq![no_data()]);
    }
    let mut title = String::new();
    title.append(" Hex Dump  ");
    push_range(&mut title, app.range_start, app.range_end);
    title.append("  Cursor: 0x");
    push_hex(&mut title, cursor, 8);
    title.append(" ");
    let mut help = String::new();
    help.append(" ");
    push_decimal(&mut help, body_rows(height) as u64);
    help.append(" rows  [G] Goto  [Q] Quit ");
    RawView { title, help, rows }
}

fn push_no_data(out: &mut Vec<Tinted>)
    requires
        old(out)@.len() == 0,
    ensures
        tinted(final(out)@) == no_data().hex,
{
    out.push(Tinted { text: String::from_str("No data in range"), tint: Tint::Plain });
    assert(tinted(out@) == no_data().hex);
}

/// Law: the bytes on the screen begin at the beginning of a line, lie in front of
/// the range's end, and fill no more lines than there are.
pub proof fn law_byte_window_fits(v: AppView, height: int)
    requires
        v.hex_offset >= 0,
    ensures
        ({
            let (start, len) = raw_window(v, height);
            &&& start % 16 == 0
            &&& 0 <= start <= v.hex_offset
            &&& 0 <= len <= rows_in(height) * 16
            &&& len > 0 ==> start + len <= v.range_end
        }),
{
    lemma_line_start(v.hex_offset);
}

/// Where among the cells of a line the digits of its `j`-th byte stand: behind the gap from
/// the ninth on.
pub open spec fn cell_at(j: int) -> int {
    if j >= 8 {
        j + 1
    } else {
        j
    }
}

/// Whether cells tell the `j`-th byte of a line at `address`: by its digits and as a
/// character, marked if the cursor is on it and only then.
pub open spec fn cells_tell(row: RawRowView, address: int, j: int, b: u8, cursor: int) -> bool {
    let digits = row.hex[cell_at(j)];
    let letter = row.ascii[j];
    &&& digits.text.len() == 3
    &&& column_tells(digits.text, 0, b)
    &&& digits.tint == Tint::Cursor <==> cursor == address + j
    &&& digits.tint == Tint::Line <==> cursor != address + j && address <= cursor <= address + 15
    &&& letter.text.len() == 1
    &&& letter_shows(letter.text[0], b)
    &&& letter.tint == Tint::Cursor <==> cursor == address + j
    &&& letter.tint == Tint::Printable <==> cursor != address + j && 32 <= b <= 126
    &&& letter.tint == Tint::Dot <==> cursor != address + j && !(32 <= b <= 126)
}

/// Whether a line tells that `bytes` stand at `address`: its address reads back, and its
/// cells tell each byte; the rest of sixteen cells are blank.
pub open spec fn row_tells(row: RawRowView, address: int, bytes: Seq<u8>, cursor: int) -> bool {
    let n = bytes.len() as int;
    &&& row.address.len() >= 10
    &&& row.address[0] == '0' && row.address[1] == 'x'
    &&& read_number(row.address.skip(2), 16, u64::MAX as nat) == Ok::<nat, NumberFault>(
        address as nat,
    )
    &&& row.hex.len() == (if n > 8 {
        17int
    } else {
        16
    })
    &&& row.ascii.len() == 16
    &&& forall|j: int| 0 <= j < n ==> cells_tell(row, address, j, #[trigger] bytes[j], cursor)
    &&& n > 8 ==> row.hex[8].text == seq![' ']
    &&& forall|j: int| n <= j < 16 ==> (#[trigger] row.ascii[j]).text == seq![' ']
    &&& row.cursor_line <==> address <= cursor <= address + 15
}

proof fn lemma_hex_cells(address: int, bytes: Seq<u8>, cursor: int)
    requires
        bytes.len() <= 16,
    ensures
        ({
            let cells = hex_cells(address, bytes, cursor);
            &&& cells.len() == (if bytes.len() > 8 {
                bytes.len() + 1
            } else {
                bytes.len()
            })
            &&& forall|j: int|
                0 <= j < bytes.len() ==> cells[cell_at(j)] == (TintedView {
                    text: hex_byte(#[trigger] bytes[j]),
                    tint: hex_tint(address, j, cursor),
                })
            &&& bytes.len() > 8 ==> cells[8].text == " "@
        }),
    decreases bytes.len(),
{
    if bytes.len() > 0 {
        let front = bytes.drop_last();
        lemma_hex_cells(address, front, cursor);
        let cells = hex_cells(address, bytes, cursor);
        let before = hex_cells(address, front, cursor);
        assert forall|j: int| 0 <= j < bytes.len() implies cells[cell_at(j)] == (TintedView {
            text: hex_byte(#[trigger] bytes[j]),
            tint: hex_tint(address, j, cursor),
        }) by {
            if j < bytes.len() - 1 {
                assert(bytes[j] == front[j]);
                assert(cells[cell_at(j)] == before[cell_at(j)]);
            }
        }
    }
}

proof fn lemma_row_tells(address: int, bytes: Seq<u8>, cursor: int)
    requires
        0 <= address <= u64::MAX,
        bytes.len() <= 16,
    ensures
        row_tells(raw_row(address, bytes, cursor), address, bytes, cursor),
{
    reveal_strlit("0x");
    reveal_strlit(" ");
    reveal_strlit("   ");
    let row = raw_row(address, bytes, cursor);
    let number = hex_padded(address as nat, 8);
    lemma_padded_hex(address as u64, 8);
    assert(row.address.skip(2) == number);
    lemma_hex_cells(address, bytes, cursor);
    assert(" "@ =~= seq![' ']);
    let cells = hex_cells(address, bytes, cursor);
    assert forall|j: int| 0 <= j < bytes.len() implies cells_tell(
        row,
        address,
        j,
        #[trigger] bytes[j],
        cursor,
    ) by {
        assert(row.hex[cell_at(j)] == cells[cell_at(j)]);
        lemma_hex_byte_tells(bytes[j]);
        assert(row.ascii[j] == ascii_cells(address, bytes, cursor)[j]);
    }
    if bytes.len() > 8 {
        assert(row.hex[8] == cells[8]);
    }
}

/// Whether `rows` show `bytes` from `address` on, sixteen a line, every one of them.
pub open spec fn rows_tell(
    rows: Seq<RawRowView>,
    address: int,
    bytes: Seq<u8>,
    cursor: int,
) -> bool {
    &&& rows.len() == (bytes.len() + 15) / 16
    &&& forall|i: int|
        0 <= i < rows.len() ==> row_tells(
            #[trigger] rows[i],
            line_at(address, i),
            sixteen(bytes, i),
            cursor,
        )
}

/// Law: the byte view shows every byte it is given, sixteen a line; the i-th line begins
/// sixteen times i behind the first, says so, and tells its bytes by their digits and as
/// characters. The byte under the cursor is marked, and its line, and no other.
pub proof fn law_rows_tell_bytes(address: int, bytes: Seq<u8>, cursor: int)
    requires
        0 <= address,
        address + bytes.len() <= u64::MAX,
    ensures
        rows_tell(raw_rows(address, bytes, cursor), address, bytes, cursor),
    decreases bytes.len(),
{
    if bytes.len() > 0 {
        let n = smaller(16, bytes.len() as int);
        let left = bytes.skip(n);
        let rows = raw_rows(address, bytes, cursor);
        let rest = raw_rows(address + 16, left, cursor);
        lemma_row_tells(address, bytes.take(n), cursor);
        if bytes.len() > 16 {
            law_rows_tell_bytes(address + 16, left, cursor);
        } else {
            assert(left == Seq::<u8>::empty());
        }
        assert(sixteen(bytes, 0) == bytes.take(n));
        assert forall|i: int| 0 <= i < rows.len() implies row_tells(
            #[trigger] rows[i],
            line_at(address, i),
            sixteen(bytes, i),
            cursor,
        ) by {
            if i > 0 {
                assert(rows[i] == rest[i - 1]);
                assert(line_at(address + 16, i - 1) == line_at(address, i));
                assert(sixteen(left, i - 1) == sixteen(bytes, i));
            }
        }
    }
}

/// Law: the bytes on the screen are those from the line that the view begins with, as many
/// as there is room for and the range has.
pub proof fn law_byte_window_is_full(v: AppView, height: int)
    requires
        0 <= v.hex_offset < v.range_end,
        height >= 5,
    ensures
        ({
            let (start, len) = raw_window(v, height);
            let rows = height - 4;
            &&& start <= v.hex_offset < start + 16
            &&& start % 16 == 0
            &&& start + 16 * rows <= v.range_end ==> len == 16 * rows
            &&& start + 16 * rows > v.range_end ==> len == v.range_end - start
        }),
{
    lemma_line_start(v.hex_offset);
}

/// Law: the title of the byte view says where the range begins and ends and where the cursor
/// is.
pub proof fn law_byte_view_title_tells(v: AppView)
    ensures
        occurs_in(
            "0x"@ + hex_padded(v.range_start as nat, 8) + "..0x"@ + hex_padded(
                v.range_end as nat,
                8,
            ),
            raw_title(v),
        ),
        occurs_in("Cursor: 0x"@ + hex_padded(v.hex_cursor as nat, 8) + " "@, raw_title(v)),
{
    reveal_strlit(" ");
    reveal_strlit(" Hex Dump  ");
    reveal_strlit("  Cursor: 0x");
    reveal_strlit("Cursor: 0x");
    let range = range_text(v.range_start, v.range_end);
    lemma_stands(raw_title(v), range, 11);
    let cursor = hex_padded(v.hex_cursor as nat, 8);
    lemma_stands(
        raw_title(v),
        "Cursor: 0x"@ + cursor + " "@,
        (" Hex Dump  "@ + range).len() as int + 2,
    );
}

/// Law: what the byte view shows of bytes are the lines that tell them, from the line that the
/// view begins with on.
pub proof fn law_byte_view_shows_its_bytes(r: RawView, v: AppView, height: int, bytes: Seq<u8>)
    requires
        shows_bytes(r, v, height, bytes),
        0 <= v.hex_offset,
        v.hex_offset + bytes.len() <= u64::MAX,
        bytes.len() > 0,
        height >= 5,
    ensures
        rows_tell(
            raw_views(r.rows@),
            v.hex_offset - v.hex_offset % 16,
            bytes,
            v.hex_cursor,
        ),
        occurs_in("Cursor: 0x"@ + hex_padded(v.hex_cursor as nat, 8) + " "@, r.title@),
        occurs_in(" "@ + decimal((height - 4) as nat) + " rows"@, r.help@),
{
    reveal_strlit(" ");
    reveal_strlit(" rows");
    reveal_strlit(" rows  [G] Goto  [Q] Quit ");
    law_rows_tell_bytes(line_start(v.hex_offset), bytes, v.hex_cursor);
    law_byte_view_title_tells(v);
    lemma_stands(r.help@, " "@ + decimal((height - 4) as nat) + " rows"@, 0);
}

} // verus!
