//! What stands around the list and the bytes: titles, progress and help.
use crate::result::{format_with_commas, with_commas};
use crate::text::{
    copies, decimal, hex_padded, lemma_stands, occurs_in, push_copies, push_decimal, push_hex,
    push_successor,
};
use crate::tui::{filtered, page_count, page_of_selection, AppView, InteractiveApp};
use vstd::prelude::*;
use vstd::string::StringExecFns;

verus! {

/// What the body of the screen shows.
#[derive(Debug, Clone, Copy, PartialEq, Eq, Structural)]
pub enum Pane {
    /// The bytes of the range.
    Bytes,
    /// The bytes around the selected string.
    Inspection,
    /// The list of strings.
    List,
}

/// What stands around the body, and what the body shows.
#[derive(Debug)]
pub struct Screen {
    pub title: String,
    pub found: String,
    pub progress: String,
    pub footer: String,
    pub pane: Pane,
}

/// The number of threads, or that it is left to the machine.
pub open spec fn threads_label(threads: int) -> Seq<char> {
    if threads == 0 {
        "auto"@
    } else {
        decimal(threads as nat)
    }
}

/// The title, given the text of the path and that of the size in megabytes.
pub open spec fn title_text(
    path: Seq<char>,
    file_size: nat,
    megabytes: Seq<char>,
    threads: int,
) -> Seq<char> {
    " "@ + path + "  "@ + with_commas(file_size) + " bytes ("@ + megabytes + " MB)  Threads: "@
        + threads_label(threads) + " "@
}

/// What is said of the filter.
pub open spec fn filter_label(v: AppView) -> Seq<char> {
    if v.filter.len() == 0 {
        "none"@
    } else {
        "\""@ + v.filter + "\" ("@ + decimal(filtered(v).len()) + " matches)"@
    }
}

/// Two offsets as a range.
pub open spec fn range_text(from: int, to: int) -> Seq<char> {
    "0x"@ + hex_padded(from as nat, 8) + "..0x"@ + hex_padded(to as nat, 8)
}

/// What is said of the range, unless it is the whole file.
pub open spec fn range_label(v: AppView, file_size: int) -> Seq<char> {
    if v.range_start != 0 || (v.range_end != file_size && file_size != 0) {
        " Range: "@ + range_text(v.range_start, v.range_end)
    } else {
        ""@
    }
}

/// What is said of the JSON filter.
pub open spec fn json_label(on: bool) -> Seq<char> {
    if on {
        " JSON:on"@
    } else {
        ""@
    }
}

/// The line that says what was found and how it is filtered.
pub open spec fn found_text(v: AppView, file_size: int) -> Seq<char> {
    " Found: "@ + decimal(v.results.len()) + "  Filter: "@ + filter_label(v) + json_label(
        v.json_filter,
    ) + range_label(v, file_size) + " "@
}

/// How many cells the progress bar has.
pub const BAR_CELLS: usize = 20;

/// The line that says how far the scan is, given how many cells of its bar are
/// filled and the text of the percentage.
pub open spec fn progress_text(v: AppView, filled: int, percent: Seq<char>) -> Seq<char> {
    if v.scanning_done {
        " Scan: done  Progress: 100%  Found: "@ + decimal(v.results.len()) + " "@
    } else {
        " Scan: "@ + copies('█', filled as nat) + copies('░', (BAR_CELLS - filled) as nat) + " "@
            + percent + "%  Found: "@ + decimal(v.results.len()) + " "@
    }
}

/// The number of the selected string, counted from one; zero when there is none.
pub open spec fn selected_number(v: AppView) -> int {
    if filtered(v).len() == 0 {
        0
    } else {
        v.selected + 1
    }
}

/// The line at the bottom: what is being typed, or where one is and which keys help.
pub open spec fn footer_text(v: AppView) -> Seq<char> {
    if v.goto_input {
        " Goto (page # or 0x offset): "@ + v.goto_buf + "█ "@
    } else if v.filter_input {
        " Filter: "@ + v.goto_buf + "█  (Enter to apply, Esc to cancel)"@
    } else if v.raw_hex_mode {
        " Offset: 0x"@ + hex_padded(v.hex_offset as nat, 8) + "  Cursor: 0x"@ + hex_padded(
            v.hex_cursor as nat,
            8,
        ) + "  Range: "@ + range_text(v.range_start, v.range_end)
            + "  [↑↓] Row  [←→] Byte  [PgUp/PgDn] Page  [G] Goto  [Q] Quit "@
    } else {
        " Page "@ + decimal((page_of_selection(v) + 1) as nat) + "/"@ + decimal(
            page_count(v) as nat,
        ) + "  Selected: #"@ + decimal(selected_number(v) as nat)
            + "  [→] Next  [←] Prev  [↑↓] Select  [Enter] Inspect  [F] Filter  [G] Goto  [H] Hex  [Q] Quit "@
    }
}

/// What the body shows.
pub open spec fn pane_of(v: AppView) -> Pane {
    if v.raw_hex_mode {
        Pane::Bytes
    } else if v.hex_view {
        Pane::Inspection
    } else {
        Pane::List
    }
}

/// Appends two offsets as a range.
pub fn push_range(out: &mut String, from: u64, to: u64)
    ensures
        final(out)@ == old(out)@ + range_text(from as int, to as int),
{
    out.append("0x");
    push_hex(out, from, 8);
    out.append("..0x");
    push_hex(out, to, 8);
    assert(out@ == old(out)@ + range_text(from as int, to as int));
}

fn format_title(path: &str, file_size: u64, megabytes: &str, threads: usize) -> (s: String)
    ensures
        s@ == title_text(path@, file_size as nat, megabytes@, threads as int),
{
    let mut s = String::new();
    s.append(" ");
    s.append(path);
    s.append("  ");
    s.append(format_with_commas(file_size).as_str());
    s.append(" bytes (");
    s.append(megabytes);
    s.append(" MB)  Threads: ");
    if threads == 0 {
        s.append("auto");
    } else {
        push_decimal(&mut s, threads as u64);
    }
    s.append(" ");
    s
}

fn format_found(app: &InteractiveApp, file_size: u64) -> (s: String)
    ensures
        s@ == found_text(app@, file_size as int),
{
    let ghost v = app@;
    let mut s = String::new();
    s.append(" Found: ");
    push_decimal(&mut s, app.results.len() as u64);
    s.append("  Filter: ");
    let ghost head = s@;
    if app.filter.as_str().is_empty() {
        s.append("none");
    } else {
        s.append("\"");
        s.append(app.filter.as_str());
        s.append("\" (");
        push_decimal(&mut s, app.filtered_len() as u64);
        s.append(" matches)");
    }
    assert(s@ == head + filter_label(v));
    if app.json_filter {
        s.append(" JSON:on");
    } else {
        s.append("");
    }
    assert(s@ == head + filter_label(v) + json_label(v.json_filter));
    let ghost before = s@;
    if app.range_start != 0 || (app.range_end != file_size && file_size != 0) {
        s.append(" Range: ");
        push_range(&mut s, app.range_start, app.range_end);
    } else {
        s.append("");
    }
    assert(s@ == before + range_label(v, file_size as int));
    s.append(" ");
    assert(v.results.len() == app.results.len());
    s
}

fn format_progress(app: &InteractiveApp, filled: usize, percent: &str) -> (s: String)
    requires
        app.scanning_done || filled <= BAR_CELLS,
    ensures
        s@ == progress_text(app@, filled as int, percent@),
{
    let mut s = String::new();
    assert(app@.results.len() == app.results.len());
    if app.scanning_done {
        s.append(" Scan: done  Progress: 100%  Found: ");
        push_decimal(&mut s, app.results.len() as u64);
        s.append(" ");
    } else {
        s.append(" Scan: ");
        push_copies(&mut s, '█', filled);
        push_copies(&mut s, '░', BAR_CELLS - filled);
        s.append(" ");
        s.append(percent);
        s.append("%  Found: ");
        push_decimal(&mut s, app.results.len() as u64);
        s.append(" ");
    }
    s
}

fn format_footer(app: &InteractiveApp) -> (s: String)
    requires
        app.page_size > 0,
    ensures
        s@ == footer_text(app@),
{
    let ghost v = app@;
    let mut s = String::new();
    if app.goto_input {
        s.append(" Goto (page # or 0x offset): ");
        s.append(app.goto_buf.as_str());
        s.append("█ ");
    } else if app.filter_input {
        s.append(" Filter: ");
        s.append(app.goto_buf.as_str());
        s.append("█  (Enter to apply, Esc to cancel)");
    } else if app.raw_hex_mode {
        s.append(" Offset: 0x");
        push_hex(&mut s, app.hex_offset, 8);
        s.append("  Cursor: 0x");
        push_hex(&mut s, app.hex_cursor, 8);
        s.append("  Range: ");
        push_range(&mut s, app.range_start, app.range_end);
        s.append("  [↑↓] Row  [←→] Byte  [PgUp/PgDn] Page  [G] Goto  [Q] Quit ");
    } else {
        s.append(" Page ");
        push_successor(&mut s, app.current_page() as u64);
        s.append("/");
        push_decimal(&mut s, app.total_pages() as u64);
        s.append("  Selected: #");
        if app.filtered_len() == 0 {
            push_decimal(&mut s, 0);
        } else {
            push_successor(&mut s, app.selected as u64);
        }
        s.append(
            "  [→] Next  [←] Prev  [↑↓] Select  [Enter] Inspect  [F] Filter  [G] Goto  [H] Hex  [Q] Quit ",
        );
    }
    s
}

/// What stands around the body, and what the body shows, given the texts of the
/// path, of the size in megabytes and of the percentage, and how many cells of the
/// progress bar are filled.
pub fn draw_ui(
    app: &InteractiveApp,
    path: &str,
    file_size: u64,
    megabytes: &str,
    filled: usize,
    percent: &str,
) -> (screen: Screen)
    requires
        app.page_size > 0,
        app.scanning_done || filled <= BAR_CELLS,
    ensures
        screen.title@ == title_text(path@, file_size as nat, megabytes@, app.threads as int),
        screen.found@ == found_text(app@, file_size as int),
        screen.progress@ == progress_text(app@, filled as int, percent@),
        screen.footer@ == footer_text(app@),
        screen.pane == pane_of(app@),
{
    let pane = if app.raw_hex_mode {
        Pane::Bytes
    } else if app.hex_view {
        Pane::Inspection
    } else {
        Pane::List
    };
    Screen {
        title: format_title(path, file_size, megabytes, app.threads),
        found: format_found(app, file_size),
        progress: format_progress(app, filled, percent),
        footer: format_footer(app),
        pane,
    }
}

/// Law: the title holds the path, the size in bytes and in megabytes, and the number of
/// threads, or that it is left to the machine.
pub proof fn law_title_tells(path: Seq<char>, file_size: nat, megabytes: Seq<char>, threads: nat)
    ensures
        ({
            let title = title_text(path, file_size, megabytes, threads as int);
            &&& occurs_in(" "@ + path + " "@, title)
            &&& occurs_in(" "@ + with_commas(file_size) + " bytes ("@ + megabytes + " MB)"@, title)
            &&& threads > 0 ==> occurs_in("Threads: "@ + decimal(threads) + " "@, title)
            &&& threads == 0 ==> occurs_in("Threads: auto "@, title)
        }),
{
    reveal_strlit(" ");
    reveal_strlit("  ");
    reveal_strlit(" MB)");
    reveal_strlit(" MB)  Threads: ");
    reveal_strlit("Threads: ");
    reveal_strlit("Threads: auto ");
    reveal_strlit("auto");
    let title = title_text(path, file_size, megabytes, threads as int);
    lemma_stands(title, " "@ + path + " "@, 0);
    let size = " "@ + with_commas(file_size) + " bytes ("@ + megabytes + " MB)"@;
    let at = path.len() as int + 2;
    lemma_stands(title, size, at);
    let from = at + size.len() + 2;
    if threads == 0 {
        lemma_stands(title, "Threads: auto "@, from);
    } else {
        lemma_stands(title, "Threads: "@ + decimal(threads) + " "@, from);
    }
}

/// Law: the line on what was found says how many strings there are, the filter and how many
/// strings pass it, or that there is none, and the range unless it is the whole file.
pub proof fn law_found_tells(v: AppView, file_size: int)
    requires
        0 <= v.range_start,
        file_size > 0,
    ensures
        ({
            let line = found_text(v, file_size);
            &&& occurs_in("Found: "@ + decimal(v.results.len()) + " "@, line)
            &&& v.filter.len() == 0 ==> occurs_in("Filter: none"@, line)
            &&& v.filter.len() > 0 ==> occurs_in(
                "Filter: \""@ + v.filter + "\" ("@ + decimal(filtered(v).len()) + " matches)"@,
                line,
            )
            &&& v.range_start > 0 || v.range_end != file_size ==> occurs_in(
                " Range: 0x"@ + hex_padded(v.range_start as nat, 8) + "..0x"@ + hex_padded(
                    v.range_end as nat,
                    8,
                ) + " "@,
                line,
            )
            &&& v.json_filter ==> occurs_in(" JSON:on "@, line)
        }),
{
    reveal_strlit(" ");
    reveal_strlit("0x");
    reveal_strlit("Found: ");
    reveal_strlit(" Found: ");
    reveal_strlit("  Filter: ");
    reveal_strlit("Filter: none");
    reveal_strlit("none");
    reveal_strlit("Filter: \"");
    reveal_strlit("\"");
    reveal_strlit(" JSON:on");
    reveal_strlit(" JSON:on ");
    reveal_strlit("");
    reveal_strlit(" Range: ");
    reveal_strlit(" Range: 0x");
    let line = found_text(v, file_size);
    let count = decimal(v.results.len());
    lemma_stands(line, "Found: "@ + count + " "@, 1);
    let at = 8 + count.len() as int + 2;
    if v.filter.len() == 0 {
        lemma_stands(line, "Filter: none"@, at);
    } else {
        lemma_stands(
            line,
            "Filter: \""@ + v.filter + "\" ("@ + decimal(filtered(v).len()) + " matches)"@,
            at,
        );
    }
    let mid = at + 8 + filter_label(v).len();
    if v.json_filter {
        lemma_stands(line, " JSON:on "@, mid);
    }
    if v.range_start > 0 || v.range_end != file_size {
        let range = " Range: 0x"@ + hex_padded(v.range_start as nat, 8) + "..0x"@ + hex_padded(
            v.range_end as nat,
            8,
        ) + " "@;
        lemma_stands(line, range, mid + json_label(v.json_filter).len());
    }
}

/// Law: the bar of the progress line has twenty cells, as many of them filled as is said, those
/// in front; behind it stand the percentage and how many strings were found. When the scan is
/// done, it says so.
pub proof fn law_progress_tells(v: AppView, filled: int, percent: Seq<char>)
    requires
        0 <= filled <= 20,
    ensures
        ({
            let line = progress_text(v, filled, percent);
            &&& occurs_in("Found: "@ + decimal(v.results.len()) + " "@, line)
            &&& v.scanning_done ==> occurs_in("Scan: done "@, line) && occurs_in("100%"@, line)
            &&& !v.scanning_done ==> {
                &&& line.len() > 27
                &&& forall|i: int| 7 <= i < 7 + filled ==> #[trigger] line[i] == '█'
                &&& forall|i: int| 7 + filled <= i < 27 ==> #[trigger] line[i] == '░'
                &&& occurs_in(" "@ + percent + "% "@, line)
            }
        }),
{
    reveal_strlit(" Scan: done  Progress: 100%  Found: ");
    reveal_strlit(" Scan: ");
    reveal_strlit("Scan: done ");
    reveal_strlit("100%");
    reveal_strlit("% ");
    reveal_strlit(" ");
    reveal_strlit("%  Found: ");
    reveal_strlit("Found: ");
    let line = progress_text(v, filled, percent);
    let found = "Found: "@ + decimal(v.results.len()) + " "@;
    if v.scanning_done {
        lemma_stands(line, "Scan: done "@, 1);
        lemma_stands(line, "100%"@, 23);
        lemma_stands(line, found, 29);
    } else {
        lemma_stands(line, " "@ + percent + "% "@, 27);
        lemma_stands(line, found, 28 + percent.len() as int + 3);
    }
}

/// Law: the line at the bottom shows all that is being typed. Where nothing is typed, it says
/// the page and the number of the selected string, or where the byte view is.
pub proof fn law_footer_tells(v: AppView)
    requires
        v.page_size > 0,
        v.raw_hex_mode || 0 <= v.selected < filtered(v).len(),
    ensures
        ({
            let line = footer_text(v);
            let typing = v.goto_input || v.filter_input;
            &&& typing ==> occurs_in(": "@ + v.goto_buf + "█"@, line)
            &&& !typing && v.raw_hex_mode ==> occurs_in(
                "Offset: 0x"@ + hex_padded(v.hex_offset as nat, 8) + "  Cursor: 0x"@ + hex_padded(
                    v.hex_cursor as nat,
                    8,
                ) + " "@,
                line,
            )
            &&& !typing && !v.raw_hex_mode ==> occurs_in(
                "Page "@ + decimal((v.selected / v.page_size + 1) as nat) + "/"@ + decimal(
                    ((filtered(v).len() + v.page_size - 1) / v.page_size) as nat,
                ) + "  Selected: #"@ + decimal((v.selected + 1) as nat) + " "@,
                line,
            )
        }),
{
    reveal_strlit(" Goto (page # or 0x offset): ");
    reveal_strlit(" Filter: ");
    reveal_strlit(": ");
    reveal_strlit("█");
    reveal_strlit("█ ");
    reveal_strlit("█  (Enter to apply, Esc to cancel)");
    reveal_strlit(" Offset: 0x");
    reveal_strlit("Offset: 0x");
    reveal_strlit("  Range: ");
    reveal_strlit(" Page ");
    reveal_strlit("Page ");
    reveal_strlit(" ");
    reveal_strlit(
        "  [→] Next  [←] Prev  [↑↓] Select  [Enter] Inspect  [F] Filter  [G] Goto  [H] Hex  [Q] Quit ",
    );
    let line = footer_text(v);
    if v.goto_input {
        lemma_stands(line, ": "@ + v.goto_buf + "█"@, 27);
    } else if v.filter_input {
        lemma_stands(line, ": "@ + v.goto_buf + "█"@, 7);
    } else if v.raw_hex_mode {
        lemma_stands(
            line,
            "Offset: 0x"@ + hex_padded(v.hex_offset as nat, 8) + "  Cursor: 0x"@ + hex_padded(
                v.hex_cursor as nat,
                8,
            ) + " "@,
            1,
        );
    } else {
        lemma_stands(
            line,
            "Page "@ + decimal((v.selected / v.page_size + 1) as nat) + "/"@ + decimal(
                ((filtered(v).len() + v.page_size - 1) / v.page_size) as nat,
            ) + "  Selected: #"@ + decimal((v.selected + 1) as nat) + " "@,
            1,
        );
    }
}

/// Law: of an empty list the line at the bottom says the first page of one, and that no string is
/// selected.
pub proof fn law_footer_of_an_empty_list(v: AppView)
    requires
        filtered(v).len() == 0,
        !v.goto_input && !v.filter_input && !v.raw_hex_mode,
    ensures
        occurs_in(
            "Page "@ + decimal(1) + "/"@ + decimal(1) + "  Selected: #"@ + decimal(0) + " "@,
            footer_text(v),
        ),
{
    reveal_strlit(" Page ");
    reveal_strlit("Page ");
    reveal_strlit(" ");
    reveal_strlit(
        "  [→] Next  [←] Prev  [↑↓] Select  [Enter] Inspect  [F] Filter  [G] Goto  [H] Hex  [Q] Quit ",
    );
    lemma_stands(
        footer_text(v),
        "Page "@ + decimal(1) + "/"@ + decimal(1) + "  Selected: #"@ + decimal(0) + " "@,
        1,
    );
}

/// Law: the bytes of the range are shown if they were asked for, else the bytes around a string
/// while it is inspected, else the list.
pub proof fn law_what_the_body_shows(v: AppView)
    ensures
        pane_of(v) == Pane::Bytes <==> v.raw_hex_mode,
        pane_of(v) == Pane::Inspection <==> !v.raw_hex_mode && v.hex_view,
        pane_of(v) == Pane::List <==> !v.raw_hex_mode && !v.hex_view,
{
}

} // verus!
