//! The list of strings as a table.
use crate::bounds::smaller;
use crate::cli::lemma_padded_hex;
use crate::keys::in_list;
use crate::layout::{body_rows, rows_in};
use crate::number::{law_digits_read_back, read_number, NumberFault};
use crate::result::{format_with_commas, with_commas, Found, ScanResult};
use crate::text::{decimal, hex_padded, push_decimal, push_hex, push_successor};
use crate::tui::{
    filtered, lemma_passing, lemma_same_list, page_count, page_of_selection, positions, scrolled,
    AppView, InteractiveApp,
};
use vstd::prelude::*;
use vstd::string::StringExecFns;

verus! {

/// A row of the table. The percentage of its place in the file is not in it.
#[derive(Debug)]
pub struct TableRow {
    pub number: String,
    pub offset: String,
    pub decimal: String,
    pub position: String,
    pub length: String,
    pub encoding: String,
    pub text: String,
    /// Where the string begins.
    pub at: u64,
    /// Whether the string is selected.
    pub selected: bool,
}

/// What a `TableRow` says.
pub struct TableRowView {
    pub number: Seq<char>,
    pub offset: Seq<char>,
    pub decimal: Seq<char>,
    pub position: Seq<char>,
    pub length: Seq<char>,
    pub encoding: Seq<char>,
    pub text: Seq<char>,
    pub at: int,
    pub selected: bool,
}

impl View for TableRow {
    type V = TableRowView;

    open spec fn view(&self) -> TableRowView {
        TableRowView {
            number: self.number@,
            offset: self.offset@,
            decimal: self.decimal@,
            position: self.position@,
            length: self.length@,
            encoding: self.encoding@,
            text: self.text@,
            at: self.at as int,
            selected: self.selected,
        }
    }
}

/// What rows say.
pub open spec fn row_views(rows: Seq<TableRow>) -> Seq<TableRowView> {
    rows.map_values(|r: TableRow| r@)
}

/// The row of the string at position `p` of the list.
pub open spec fn table_row(r: Found, p: int, selected: int, file_size: nat) -> TableRowView {
    TableRowView {
        number: decimal((p + 1) as nat),
        offset: "0x"@ + hex_padded(r.offset as nat, 8),
        decimal: with_commas(r.offset as nat),
        position: with_commas(r.offset as nat) + "/"@ + with_commas(file_size),
        length: decimal(r.length as nat),
        encoding: r.encoding.name(),
        text: r.text,
        at: r.offset,
        selected: p == selected,
    }
}

/// The rows of the positions from `from` up to but without `to`.
pub open spec fn table_rows(v: AppView, from: int, to: int, file_size: nat) -> Seq<TableRowView> {
    Seq::new(
        (to - from) as nat,
        |i: int|
            table_row(v.results[filtered(v)[from + i]], from + i, v.selected, file_size),
    )
}

/// How many rows are shown in a body of the given height.
pub open spec fn rows_shown(v: AppView, height: int) -> int {
    smaller(smaller(rows_in(height), v.page_size), filtered(v).len() as int)
}

/// The viewer scrolled so that the selection is shown and no row is left empty.
pub open spec fn table_scrolled(v: AppView, height: int) -> AppView {
    let n = rows_shown(v, height);
    let near = scrolled(v, n);
    if filtered(v).len() == 0 {
        AppView { scroll_offset: 0, ..v }
    } else if near.scroll_offset + n > filtered(v).len() {
        AppView { scroll_offset: filtered(v).len() - n, ..v }
    } else {
        near
    }
}

/// The title above the table.
pub open spec fn table_title(v: AppView) -> Seq<char> {
    " Results  Page "@ + decimal((page_of_selection(v) + 1) as nat) + "/"@ + decimal(
        page_count(v) as nat,
    ) + " "@
}

/// The title below the table: which rows are shown, counted from one.
pub open spec fn showing_text(from: int, to: int, len: nat) -> Seq<char> {
    " Showing "@ + decimal(
        (if len == 0 {
            0
        } else {
            from + 1
        }) as nat,
    ) + "-"@ + decimal(to as nat) + " of "@ + decimal(len) + " "@
}

/// The list as it is shown.
#[derive(Debug)]
pub struct TableView {
    pub title: String,
    pub showing: String,
    pub rows: Vec<TableRow>,
}

/// Whether `t` shows the list of `v`, scrolled as `v` is, in a body of the given
/// height.
pub open spec fn shows_list(t: TableView, v: AppView, height: int, file_size: nat) -> bool {
    let from = v.scroll_offset;
    let to = from + rows_shown(v, height);
    &&& t.title@ == table_title(v)
    &&& t.showing@ == showing_text(from, to, filtered(v).len())
    &&& row_views(t.rows@) == table_rows(v, from, to, file_size)
}

fn format_row(r: &ScanResult, p: usize, selected: usize, file_size: u64) -> (row: TableRow)
    ensures
        row@ == table_row(r@, p as int, selected as int, file_size as nat),
{
    let mut number = String::new();
    push_successor(&mut number, p as u64);
    let mut offset = String::new();
    offset.append("0x");
    push_hex(&mut offset, r.offset, 8);
    let mut position = format_with_commas(r.offset);
    position.append("/");
    position.append(format_with_commas(file_size).as_str());
    let mut length = String::new();
    push_decimal(&mut length, r.length as u64);
    TableRow {
        number,
        offset,
        decimal: format_with_commas(r.offset),
        position,
        length,
        encoding: r.encoding.label(),
        text: r.text.clone(),
        at: r.offset,
        selected: p == selected,
    }
}

impl InteractiveApp {
    /// How many rows are shown in a body of the given height.
    fn shown_rows(&self, height: u16) -> (n: usize)
        ensures
            n == rows_shown(self@, height as int),
    {
        let mut n: usize = body_rows(height);
        if self.page_size < n {
            n = self.page_size;
        }
        let len: usize = self.filtered_len();
        if len < n {
            n = len;
        }
        n
    }

    /// Scrolls so that the selection is shown and no row is left empty.
    fn scroll_table(&mut self, height: u16)
        ensures
            final(self)@ == table_scrolled(old(self)@, height as int),
    {
        let len: usize = self.filtered_len();
        if len == 0 {
            self.scroll_offset = 0;
            return;
        }
        let n: usize = self.shown_rows(height);
        self.ensure_visible(n);
        if self.scroll_offset > len - n {
            self.scroll_offset = len - n;
        }
    }
}

/// The list as it is shown in a body of the given height. The viewer is scrolled for
/// that.
pub fn draw_table(app: &mut InteractiveApp, height: u16, file_size: u64) -> (t: TableView)
    requires
        old(app).page_size > 0,
    ensures
        final(app)@ == table_scrolled(old(app)@, height as int),
        shows_list(t, final(app)@, height as int, file_size as nat),
{
    app.scroll_table(height);
    let ghost v = app@;
    proof {
        lemma_same_list(old(app)@, v, v.results.len());
        lemma_passing(v, v.results.len());
        assert(v.results.len() == app.results.len());
    }
    let indices = app.filtered_indices();
    let len: usize = indices.len();
    assert(positions(indices@).len() == indices.len());
    let from: usize = app.scroll_offset;
    let to: usize = from + app.shown_rows(height);
    let mut title = String::new();
    title.append(" Results  Page ");
    push_successor(&mut title, app.current_page() as u64);
    title.append("/");
    push_decimal(&mut title, app.total_pages() as u64);
    title.append(" ");
    let mut showing = String::new();
    showing.append(" Showing ");
    push_decimal(
        &mut showing,
        if len == 0 {
            0
        } else {
            from as u64 + 1
        },
    );
    showing.append("-");
    push_decimal(&mut showing, to as u64);
    showing.append(" of ");
    push_decimal(&mut showing, len as u64);
    showing.append(" ");
    let mut rows: Vec<TableRow> = Vec::new();
    let mut p: usize = from;
    while p < to
        invariant
            from <= p <= to <= indices.len(),
            v == app@,
            positions(indices@) == filtered(v),
            forall|k: int|
                0 <= k < filtered(v).len() ==> 0 <= #[trigger] filtered(v)[k] < v.results.len(),
            rows.len() == p - from,
            forall|i: int|
                0 <= i < rows.len() ==> (#[trigger] rows@[i])@ == table_row(
                    v.results[filtered(v)[from + i]],
                    from + i,
                    v.selected,
                    file_size as nat,
                ),
        decreases to - p,
    {
        assert(filtered(v)[p as int] == positions(indices@)[p as int]);
        let row = format_row(&app.results[indices[p]], p, app.selected, file_size);
        rows.push(row);
        p += 1;
    }
    assert(row_views(rows@) == table_rows(v, from as int, to as int, file_size as nat));
    TableView { title, showing, rows }
}

/// Law: the selected string is among the rows shown, and none of the rows is past
/// the end of the list.
pub proof fn law_selection_is_shown(v: AppView, height: int)
    requires
        in_list(v),
        filtered(v).len() > 0,
        v.page_size > 0,
        v.scroll_offset >= 0,
    ensures
        ({
            let w = table_scrolled(v, height);
            &&& filtered(w) == filtered(v)
            &&& w.selected == v.selected
            &&& 0 <= w.scroll_offset <= w.selected
            &&& w.selected < w.scroll_offset + rows_shown(w, height) <= filtered(w).len()
            &&& 0 < rows_shown(w, height) <= v.page_size
        }),
{
    lemma_same_list(v, table_scrolled(v, height), v.results.len());
}

/// Whether a row tells the string at position `p` of the list: its number, counted from one,
/// its offset and its length read back, the rest stands as it is, and it is marked if it is
/// selected and only then.
pub open spec fn table_row_tells(row: TableRowView, r: Found, p: int, selected: int) -> bool {
    &&& read_number(row.number, 10, u64::MAX as nat) == Ok::<nat, NumberFault>((p + 1) as nat)
    &&& row.offset.len() >= 10
    &&& row.offset[0] == '0' && row.offset[1] == 'x'
    &&& read_number(row.offset.skip(2), 16, u64::MAX as nat) == Ok::<nat, NumberFault>(
        r.offset as nat,
    )
    &&& row.decimal == with_commas(r.offset as nat)
    &&& read_number(row.length, 10, u64::MAX as nat) == Ok::<nat, NumberFault>(r.length as nat)
    &&& row.text == r.text
    &&& row.at == r.offset
    &&& row.selected <==> p == selected
}

/// Law: the rows from `from` on are the strings of the list from there on, one row for each,
/// in their order, and each row tells its string.
pub proof fn law_rows_tell_the_list(v: AppView, from: int, to: int, file_size: nat, i: int)
    requires
        0 <= from <= from + i < to <= filtered(v).len(),
        0 <= i,
        filtered(v).len() <= u64::MAX,
        0 <= v.results[filtered(v)[from + i]].offset <= u64::MAX,
        0 <= v.results[filtered(v)[from + i]].length <= u64::MAX,
    ensures
        table_rows(v, from, to, file_size).len() == to - from,
        table_row_tells(
            table_rows(v, from, to, file_size)[i],
            v.results[filtered(v)[from + i]],
            from + i,
            v.selected,
        ),
        table_rows(v, from, to, file_size)[i].position == with_commas(
            v.results[filtered(v)[from + i]].offset as nat,
        ) + "/"@ + with_commas(file_size),
{
    reveal_strlit("0x");
    let r = v.results[filtered(v)[from + i]];
    let row = table_rows(v, from, to, file_size)[i];
    lemma_padded_hex(r.offset as u64, 8);
    assert(row.offset.skip(2) == hex_padded(r.offset as nat, 8));
    law_digits_read_back((from + i + 1) as nat, 0, 10, u64::MAX as nat);
    law_digits_read_back(r.length as nat, 0, 10, u64::MAX as nat);
}

/// Law: as many rows are shown as there is room for, a page has and the list has, whichever is
/// least.
pub proof fn law_as_many_rows_as_fit(v: AppView, height: int)
    requires
        v.page_size > 0,
        height >= 5,
    ensures
        ({
            let n = rows_shown(v, height);
            let len = filtered(v).len();
            &&& n <= height - 4 && n <= v.page_size && n <= len
            &&& n == height - 4 || n == v.page_size || n == len
        }),
{
}

/// Law: what is said below the list are the numbers of the first and of the last row shown,
/// counted from one, and how many strings are listed.
pub proof fn law_showing_tells_the_rows(t: TableView, v: AppView, height: int, file_size: nat)
    requires
        shows_list(t, v, height, file_size),
        v.scroll_offset >= 0,
        v.page_size > 0,
        filtered(v).len() > 0,
        v.scroll_offset + rows_shown(v, height) <= filtered(v).len(),
    ensures
        ({
            let rows = row_views(t.rows@);
            &&& rows.len() > 0
            &&& t.showing@ == " Showing "@ + rows[0].number + "-"@ + rows.last().number + " of "@
                + decimal(filtered(v).len()) + " "@
        }),
{
}

/// Law: the title above the list says the page of the selection, counted from one, and how
/// many pages there are.
pub proof fn law_title_tells_the_page(t: TableView, v: AppView, height: int, file_size: nat)
    requires
        shows_list(t, v, height, file_size),
        v.page_size > 0,
        0 <= v.selected < filtered(v).len(),
    ensures
        t.title@ == " Results  Page "@ + decimal((v.selected / v.page_size + 1) as nat) + "/"@
            + decimal(((filtered(v).len() + v.page_size - 1) / v.page_size) as nat) + " "@,
{
}

/// Law: the rows that are shown are those of the strings from the first line shown on, each
/// telling its string.
pub proof fn law_list_shows_its_strings(
    t: TableView,
    v: AppView,
    height: int,
    file_size: nat,
    i: int,
)
    requires
        shows_list(t, v, height, file_size),
        v.scroll_offset >= 0,
        0 <= i < rows_shown(v, height),
        v.scroll_offset + rows_shown(v, height) <= filtered(v).len(),
        filtered(v).len() <= u64::MAX,
        0 <= v.results[filtered(v)[v.scroll_offset + i]].offset <= u64::MAX,
        0 <= v.results[filtered(v)[v.scroll_offset + i]].length <= u64::MAX,
    ensures
        row_views(t.rows@).len() == rows_shown(v, height),
        table_row_tells(
            row_views(t.rows@)[i],
            v.results[filtered(v)[v.scroll_offset + i]],
            v.scroll_offset + i,
            v.selected,
        ),
{
    law_rows_tell_the_list(
        v,
        v.scroll_offset,
        v.scroll_offset + rows_shown(v, height),
        file_size,
        i,
    );
}

/// Law: the list is scrolled no further than it takes to show the selection and leave no row
/// empty, and not at all where that is so.
pub proof fn law_list_scrolls_as_little_as_needed(v: AppView, height: int)
    requires
        in_list(v),
        filtered(v).len() > 0,
        v.page_size > 0,
        v.scroll_offset >= 0,
    ensures
        ({
            let w = table_scrolled(v, height);
            let n = rows_shown(v, height);
            let len = filtered(v).len() as int;
            let shown = v.scroll_offset <= v.selected < v.scroll_offset + n;
            &&& w == (AppView { scroll_offset: w.scroll_offset, ..v })
            &&& shown && v.scroll_offset + n <= len ==> w == v
            &&& shown && v.scroll_offset + n > len ==> w.scroll_offset + n == len
            &&& v.selected < v.scroll_offset && v.selected + n <= len ==> w.scroll_offset
                == v.selected
            &&& v.selected < v.scroll_offset && v.selected + n > len ==> w.scroll_offset + n == len
            &&& v.selected >= v.scroll_offset + n ==> w.scroll_offset + n == v.selected + 1
        }),
{
}

/// Law: of an empty list no row is shown, and its title and what is below it say so.
pub proof fn law_empty_list_shows_nothing(t: TableView, v: AppView, height: int, file_size: nat)
    requires
        shows_list(t, v, height, file_size),
        v.page_size > 0,
        filtered(v).len() == 0,
        v.scroll_offset == 0,
    ensures
        row_views(t.rows@).len() == 0,
        t.showing@ == " Showing "@ + decimal(0) + "-"@ + decimal(0) + " of "@ + decimal(0) + " "@,
        t.title@ == " Results  Page "@ + decimal(1) + "/"@ + decimal(1) + " "@,
{
    assert(rows_shown(v, height) == 0);
}

} // verus!
