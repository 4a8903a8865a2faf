//! What each key does in the viewer.
use crate::bounds::{
    align_line, larger, lemma_line_start, less, line_start, max_u64, min_u64, smaller,
};
use crate::cli::{clean_offset, clean_offset_chars, parse_clean_offset, read_offset};
use crate::events::{gone_to, handle_goto, law_goto_stays_in_the_list};
use crate::number::NumberFault;
use crate::text::{chars_of, string_of, trim, trim_chars};
use crate::tui::{
    bounded, filtered, law_moving_moves_by_as_much, law_next_page_begins_behind,
    law_previous_page_begins_before, lemma_page_inside, lemma_page_start, lemma_same_list, moved,
    page_count, page_of_selection, paged_back, paged_forward, AppView, InteractiveApp,
};
use vstd::prelude::*;

verus! {

/// A key that was pressed.
#[derive(Debug, Clone, Copy, PartialEq, Eq, Structural)]
pub enum Key {
    Esc,
    Enter,
    Backspace,
    Left,
    Right,
    Up,
    Down,
    PageUp,
    PageDown,
    Home,
    End,
    Char(char),
    Other,
}

/// Whether the viewer goes on after a key.
#[derive(Debug, Clone, Copy, PartialEq, Eq, Structural)]
pub enum Step {
    Continue,
    Quit,
}

/// How many bytes a page of the byte view has.
pub open spec fn bytes_per_page(v: AppView) -> int {
    smaller(v.page_size, 40) * 16
}

/// The last byte of the range.
pub open spec fn last_byte(v: AppView) -> int {
    less(v.range_end, 1)
}

/// What was typed, after a key that edits it.
pub open spec fn edited(typed: Seq<char>, key: Key) -> Seq<char> {
    match key {
        Key::Backspace => if typed.len() > 0 {
            typed.drop_last()
        } else {
            typed
        },
        Key::Char(c) => typed.push(c),
        _ => typed,
    }
}

/// The viewer after a key while the filter is typed, before its selection is brought
/// inside the list: what is typed is the filter at once, Enter applies it, and Esc goes
/// back to the filter from before.
pub open spec fn filter_typed(v: AppView, key: Key) -> AppView {
    match key {
        Key::Esc => AppView {
            filter: match v.filter_before {
                Some(before) => before,
                None => v.filter,
            },
            filter_input: false,
            filter_before: None,
            ..v
        },
        Key::Enter => AppView {
            filter: v.goto_buf,
            filter_input: false,
            filter_before: None,
            selected: 0,
            ..v
        },
        _ => AppView {
            filter: edited(v.goto_buf, key),
            goto_buf: edited(v.goto_buf, key),
            ..v
        },
    }
}

/// The viewer after a key while the filter is typed.
pub open spec fn filter_key(v: AppView, key: Key) -> AppView {
    bounded(filter_typed(v, key))
}

/// The byte view at what was typed, if that is an offset; it is brought into the
/// range.
pub open spec fn byte_view_at_typed(v: AppView) -> AppView {
    match read_offset(clean_offset(trim(v.goto_buf))) {
        Ok(n) => {
            let cursor = larger(v.range_start, smaller(n as int, last_byte(v)));
            AppView { hex_cursor: cursor, hex_offset: line_start(cursor), ..v }
        },
        Err(_) => v,
    }
}

/// The viewer after a key while a place to go to is typed.
pub open spec fn goto_key(v: AppView, key: Key) -> AppView {
    match key {
        Key::Esc => AppView { goto_input: false, goto_buf: Seq::empty(), ..v },
        Key::Enter => {
            let there = if v.raw_hex_mode {
                byte_view_at_typed(v)
            } else {
                gone_to(v)
            };
            AppView { goto_input: false, goto_buf: Seq::empty(), ..there }
        },
        _ => AppView { goto_buf: edited(v.goto_buf, key), ..v },
    }
}

/// The viewer after a key while the bytes around a string are shown, and whether it
/// is left.
pub open spec fn inspect_key(v: AppView, key: Key) -> (AppView, Step) {
    match key {
        Key::Esc | Key::Enter => (AppView { hex_view: false, ..v }, Step::Continue),
        Key::Char(c) => if c == 'q' || c == 'Q' {
            (v, Step::Quit)
        } else if c == 'h' || c == 'H' {
            (AppView { hex_view: false, ..v }, Step::Continue)
        } else {
            (v, Step::Continue)
        },
        Key::Left | Key::Up => (moved(v, -1), Step::Continue),
        Key::Right | Key::Down => (moved(v, 1), Step::Continue),
        _ => (v, Step::Continue),
    }
}

/// The byte view with its cursor moved back to `cursor`.
pub open spec fn cursor_back(v: AppView, cursor: int) -> AppView {
    AppView {
        hex_cursor: cursor,
        hex_offset: if cursor < v.hex_offset {
            line_start(cursor)
        } else {
            v.hex_offset
        },
        ..v
    }
}

/// The byte view with its cursor moved on to `cursor`.
pub open spec fn cursor_on(v: AppView, cursor: int) -> AppView {
    AppView {
        hex_cursor: cursor,
        hex_offset: if cursor >= v.hex_offset + bytes_per_page(v) {
            less(line_start(cursor), bytes_per_page(v) - 16)
        } else {
            v.hex_offset
        },
        ..v
    }
}

/// The viewer waiting for a place to go to.
pub open spec fn asking_where(v: AppView) -> AppView {
    AppView { goto_input: true, goto_buf: Seq::empty(), ..v }
}

/// The byte view after a key, and whether the viewer is left.
pub open spec fn bytes_key(v: AppView, key: Key) -> (AppView, Step) {
    let page = bytes_per_page(v);
    match key {
        Key::Esc => (v, Step::Quit),
        Key::Up => (
            cursor_back(v, larger(less(v.hex_cursor, 16), v.range_start)),
            Step::Continue,
        ),
        Key::Down => (cursor_on(v, smaller(v.hex_cursor + 16, last_byte(v))), Step::Continue),
        Key::Left => (
            cursor_back(v, larger(less(v.hex_cursor, 1), v.range_start)),
            Step::Continue,
        ),
        Key::Right => (cursor_on(v, smaller(v.hex_cursor + 1, last_byte(v))), Step::Continue),
        Key::PageUp => (
            AppView {
                hex_offset: larger(less(v.hex_offset, page), line_start(v.range_start)),
                hex_cursor: larger(less(v.hex_cursor, page), v.range_start),
                ..v
            },
            Step::Continue,
        ),
        Key::PageDown => (
            AppView {
                hex_offset: smaller(v.hex_offset + page, line_start(less(v.range_end, 16))),
                hex_cursor: smaller(v.hex_cursor + page, last_byte(v)),
                ..v
            },
            Step::Continue,
        ),
        Key::Home => (
            AppView { hex_offset: line_start(v.range_start), hex_cursor: v.range_start, ..v },
            Step::Continue,
        ),
        Key::End => (
            AppView {
                hex_offset: line_start(larger(less(v.range_end, page), v.range_start)),
                hex_cursor: last_byte(v),
                ..v
            },
            Step::Continue,
        ),
        Key::Char(c) => if c == 'q' || c == 'Q' {
            (v, Step::Quit)
        } else if c == 'k' {
            (cursor_back(v, larger(less(v.hex_cursor, 16), v.range_start)), Step::Continue)
        } else if c == 'j' {
            (cursor_on(v, smaller(v.hex_cursor + 16, last_byte(v))), Step::Continue)
        } else if c == 'g' || c == 'G' {
            (asking_where(v), Step::Continue)
        } else {
            (v, Step::Continue)
        },
        _ => (v, Step::Continue),
    }
}

/// The viewer showing the bytes around the selected string, if there is one.
pub open spec fn inspecting(v: AppView) -> AppView {
    AppView { hex_view: v.hex_view || filtered(v).len() > 0, ..v }
}

/// The viewer with the filter being typed.
pub open spec fn asking_filter(v: AppView) -> AppView {
    AppView { filter_input: true, filter_before: Some(v.filter), goto_buf: v.filter, ..v }
}

/// The list after a key, and whether the viewer is left.
pub open spec fn list_key(v: AppView, key: Key) -> (AppView, Step) {
    match key {
        Key::Esc => (v, Step::Quit),
        Key::Right | Key::PageDown => (paged_forward(v), Step::Continue),
        Key::Left | Key::PageUp => (paged_back(v), Step::Continue),
        Key::Up => (moved(v, -1), Step::Continue),
        Key::Down => (moved(v, 1), Step::Continue),
        Key::Enter => (inspecting(v), Step::Continue),
        Key::Home => (AppView { selected: 0, ..v }, Step::Continue),
        Key::End => (
            AppView {
                selected: if filtered(v).len() > 0 {
                    filtered(v).len() - 1
                } else {
                    v.selected
                },
                ..v
            },
            Step::Continue,
        ),
        Key::Char(c) => if c == 'q' || c == 'Q' {
            (v, Step::Quit)
        } else if c == 'g' || c == 'G' {
            (asking_where(v), Step::Continue)
        } else if c == 'f' || c == 'F' || c == '/' {
            (asking_filter(v), Step::Continue)
        } else if c == 'h' || c == 'H' {
            (inspecting(v), Step::Continue)
        } else if c == 'k' {
            (moved(v, -1), Step::Continue)
        } else if c == 'j' {
            (moved(v, 1), Step::Continue)
        } else {
            (v, Step::Continue)
        },
        _ => (v, Step::Continue),
    }
}

/// The viewer after a key, and whether it is left. What is typed goes first, then
/// the view that is open.
pub open spec fn after_key(v: AppView, key: Key) -> (AppView, Step) {
    if v.filter_input {
        (filter_key(v, key), Step::Continue)
    } else if v.goto_input {
        (goto_key(v, key), Step::Continue)
    } else if v.hex_view {
        inspect_key(v, key)
    } else if v.raw_hex_mode {
        bytes_key(v, key)
    } else {
        list_key(v, key)
    }
}

/// Whether going to an offset in the byte view makes sense: the range has a byte.
pub open spec fn goto_has_a_place(v: AppView, key: Key) -> bool {
    !v.filter_input && v.goto_input && key == Key::Enter && v.raw_hex_mode && read_offset(
        clean_offset(trim(v.goto_buf)),
    ) is Ok ==> v.range_start <= last_byte(v)
}

/// Reads an offset that was typed.
pub fn parse_goto_offset(s: &str) -> (r: Result<u64, String>)
    ensures
        match r {
            Ok(n) => read_offset(clean_offset(s@)) == Ok::<nat, NumberFault>(n as nat),
            Err(m) => read_offset(clean_offset(s@)) matches Err(e) && m@ == e.words(),
        },
{
    let v = clean_offset_chars(s);
    match parse_clean_offset(&v) {
        Ok(n) => Ok(n),
        Err(e) => Err(e.message()),
    }
}

impl InteractiveApp {
    fn bytes_on_page(&self) -> (n: u64)
        ensures
            n == bytes_per_page(self@),
            n <= 640,
    {
        let rows: u64 = if self.page_size <= 40 {
            self.page_size as u64
        } else {
            40
        };
        rows * 16
    }

    fn edit_typed(&mut self, key: Key)
        ensures
            final(self)@ == (AppView {
                goto_buf: edited(old(self)@.goto_buf, key),
                ..old(self)@
            }),
    {
        match key {
            Key::Backspace => {
                self.goto_buf.pop();
            },
            Key::Char(c) => {
                self.goto_buf.push(c);
            },
            _ => {},
        }
    }

    fn on_filter_key(&mut self, key: Key)
        ensures
            final(self)@ == filter_key(old(self)@, key),
    {
        match key {
            Key::Esc => {
                let mut before: Option<String> = None;
                std::mem::swap(&mut before, &mut self.filter_before);
                if let Some(filter) = before {
                    self.filter = filter;
                }
                self.filter_input = false;
            },
            Key::Enter => {
                self.filter = self.goto_buf.clone();
                self.filter_input = false;
                self.filter_before = None;
                self.selected = 0;
            },
            _ => {
                self.edit_typed(key);
                self.filter = self.goto_buf.clone();
            },
        }
        assert(self@ == filter_typed(old(self)@, key));
        self.ensure_selected_in_bounds();
    }

    fn on_goto_key(&mut self, key: Key)
        requires
            old(self).page_size > 0,
            key == Key::Enter && old(self).raw_hex_mode && read_offset(
                clean_offset(trim(old(self).goto_buf@)),
            ) is Ok ==> old(self)@.range_start <= last_byte(old(self)@),
        ensures
            final(self)@ == goto_key(old(self)@, key),
    {
        match key {
            Key::Esc => {
                self.goto_input = false;
                self.goto_buf = String::new();
            },
            Key::Enter => {
                if self.raw_hex_mode {
                    let typed = string_of(&trim_chars(&chars_of(self.goto_buf.as_str())));
                    if let Ok(n) = parse_goto_offset(typed.as_str()) {
                        let last: u64 = self.range_end.saturating_sub(1);
                        let cursor: u64 = max_u64(self.range_start, min_u64(n, last));
                        self.hex_cursor = cursor;
                        self.hex_offset = align_line(cursor);
                    }
                } else {
                    handle_goto(self);
                }
                self.goto_input = false;
                self.goto_buf = String::new();
            },
            _ => {
                self.edit_typed(key);
            },
        }
    }

    fn on_inspect_key(&mut self, key: Key) -> (step: Step)
        ensures
            (final(self)@, step) == inspect_key(old(self)@, key),
    {
        match key {
            Key::Esc | Key::Enter => {
                self.hex_view = false;
            },
            Key::Char(c) => {
                if c == 'q' || c == 'Q' {
                    return Step::Quit;
                } else if c == 'h' || c == 'H' {
                    self.hex_view = false;
                }
            },
            Key::Left | Key::Up => {
                self.move_selection(-1);
            },
            Key::Right | Key::Down => {
                self.move_selection(1);
            },
            _ => {},
        }
        Step::Continue
    }

    fn move_cursor_back(&mut self, by: u64)
        ensures
            final(self)@ == cursor_back(
                old(self)@,
                larger(less(old(self)@.hex_cursor, by as int), old(self)@.range_start),
            ),
    {
        self.hex_cursor = max_u64(self.hex_cursor.saturating_sub(by), self.range_start);
        if self.hex_cursor < self.hex_offset {
            self.hex_offset = align_line(self.hex_cursor);
        }
    }

    fn move_cursor_on(&mut self, by: u64)
        requires
            old(self).page_size > 0,
        ensures
            final(self)@ == cursor_on(
                old(self)@,
                smaller(old(self)@.hex_cursor + by, last_byte(old(self)@)),
            ),
    {
        let last: u64 = self.range_end.saturating_sub(1);
        self.hex_cursor = min_u64(self.hex_cursor.saturating_add(by), last);
        let shown: u64 = self.bytes_on_page();
        if self.hex_cursor >= self.hex_offset && self.hex_cursor - self.hex_offset >= shown {
            self.hex_offset = align_line(self.hex_cursor).saturating_sub(shown - 16);
        }
    }

    fn page_bytes_back(&mut self)
        ensures
            (final(self)@, Step::Continue) == bytes_key(old(self)@, Key::PageUp),
    {
        let page: u64 = self.bytes_on_page();
        self.hex_offset =
        max_u64(self.hex_offset.saturating_sub(page), align_line(self.range_start));
        self.hex_cursor = max_u64(self.hex_cursor.saturating_sub(page), self.range_start);
    }

    fn page_bytes_on(&mut self)
        ensures
            (final(self)@, Step::Continue) == bytes_key(old(self)@, Key::PageDown),
    {
        let page: u64 = self.bytes_on_page();
        let most: u64 = align_line(self.range_end.saturating_sub(16));
        self.hex_offset = min_u64(self.hex_offset.saturating_add(page), most);
        self.hex_cursor =
        min_u64(self.hex_cursor.saturating_add(page), self.range_end.saturating_sub(1));
    }

    fn to_last_byte(&mut self)
        ensures
            (final(self)@, Step::Continue) == bytes_key(old(self)@, Key::End),
    {
        let page: u64 = self.bytes_on_page();
        self.hex_offset =
        align_line(max_u64(self.range_end.saturating_sub(page), self.range_start));
        self.hex_cursor = self.range_end.saturating_sub(1);
    }

    #[verifier::rlimit(30)]
    #[verifier::spinoff_prover]
    fn on_bytes_key(&mut self, key: Key) -> (step: Step)
        requires
            old(self).page_size > 0,
        ensures
            (final(self)@, step) == bytes_key(old(self)@, key),
    {
        match key {
            Key::Esc => {
                return Step::Quit;
            },
            Key::Up => {
                self.move_cursor_back(16);
            },
            Key::Down => {
                self.move_cursor_on(16);
            },
            Key::Left => {
                self.move_cursor_back(1);
            },
            Key::Right => {
                self.move_cursor_on(1);
            },
            Key::PageUp => {
                self.page_bytes_back();
            },
            Key::PageDown => {
                self.page_bytes_on();
            },
            Key::Home => {
                self.hex_offset = align_line(self.range_start);
                self.hex_cursor = self.range_start;
            },
            Key::End => {
                self.to_last_byte();
            },
            Key::Char(c) => {
                if c == 'q' || c == 'Q' {
                    return Step::Quit;
                } else if c == 'k' {
                    self.move_cursor_back(16);
                } else if c == 'j' {
                    self.move_cursor_on(16);
                } else if c == 'g' || c == 'G' {
                    self.goto_input = true;
                    self.goto_buf = String::new();
                }
            },
            _ => {},
        }
        Step::Continue
    }

    fn inspect(&mut self)
        ensures
            final(self)@ == inspecting(old(self)@),
    {
        if self.filtered_len() > 0 {
            self.hex_view = true;
        }
    }

    fn on_list_key(&mut self, key: Key) -> (step: Step)
        requires
            old(self).page_size > 0,
        ensures
            (final(self)@, step) == list_key(old(self)@, key),
    {
        match key {
            Key::Esc => {
                return Step::Quit;
            },
            Key::Right | Key::PageDown => {
                self.next_page();
            },
            Key::Left | Key::PageUp => {
                self.prev_page();
            },
            Key::Up => {
                self.move_selection(-1);
            },
            Key::Down => {
                self.move_selection(1);
            },
            Key::Enter => {
                self.inspect();
            },
            Key::Home => {
                self.selected = 0;
            },
            Key::End => {
                let len: usize = self.filtered_len();
                if len > 0 {
                    self.selected = len - 1;
                }
            },
            Key::Char(c) => {
                if c == 'q' || c == 'Q' {
                    return Step::Quit;
                } else if c == 'g' || c == 'G' {
                    self.goto_input = true;
                    self.goto_buf = String::new();
                } else if c == 'f' || c == 'F' || c == '/' {
                    self.filter_input = true;
                    self.filter_before = Some(self.filter.clone());
                    self.goto_buf = self.filter.clone();
                } else if c == 'h' || c == 'H' {
                    self.inspect();
                } else if c == 'k' {
                    self.move_selection(-1);
                } else if c == 'j' {
                    self.move_selection(1);
                }
            },
            _ => {},
        }
        Step::Continue
    }

    /// Whether `handle_key` takes the key: it does not when the byte view is to go
    /// to an offset and the range has no byte.
    pub fn accepts_key(&self, key: Key) -> (r: bool)
        ensures
            r == goto_has_a_place(self@, key),
    {
        if self.filter_input || !self.goto_input || !self.raw_hex_mode {
            return true;
        }
        match key {
            Key::Enter => {
                let typed = string_of(&trim_chars(&chars_of(self.goto_buf.as_str())));
                match parse_goto_offset(typed.as_str()) {
                    Ok(_) => self.range_start <= self.range_end.saturating_sub(1),
                    Err(_) => true,
                }
            },
            _ => true,
        }
    }

    /// Does what a key asks for, and says whether the viewer goes on.
    pub fn handle_key(&mut self, key: Key) -> (step: Step)
        requires
            old(self).page_size > 0,
            goto_has_a_place(old(self)@, key),
        ensures
            (final(self)@, step) == after_key(old(self)@, key),
    {
        if self.filter_input {
            self.on_filter_key(key);
            Step::Continue
        } else if self.goto_input {
            self.on_goto_key(key);
            Step::Continue
        } else if self.hex_view {
            self.on_inspect_key(key)
        } else if self.raw_hex_mode {
            self.on_bytes_key(key)
        } else {
            self.on_list_key(key)
        }
    }
}

/// Whether the selection is inside the list, or at zero when the list is empty.
pub open spec fn in_list(v: AppView) -> bool {
    0 <= v.selected && (v.selected < filtered(v).len() || filtered(v).len() == 0 && v.selected
        == 0)
}

/// Whether the cursor of the byte view is on a byte of the range.
pub open spec fn in_range(v: AppView) -> bool {
    v.range_start <= v.hex_cursor < v.range_end
}

/// Whether the byte view begins at the cursor or before, and at zero or behind.
pub open spec fn begins_before_cursor(v: AppView) -> bool {
    0 <= v.hex_offset <= v.hex_cursor
}

/// Whether the cursor is on the page that the byte view begins with.
pub open spec fn cursor_on_page(v: AppView) -> bool {
    v.hex_offset <= v.hex_cursor < v.hex_offset + bytes_per_page(v)
}

/// Whether a key moves the cursor by one byte or one line.
pub open spec fn moves_a_step(key: Key) -> bool {
    key == Key::Up || key == Key::Down || key == Key::Left || key == Key::Right || key
        == Key::Char('k') || key == Key::Char('j')
}

/// Law: a key changes what is shown and what is typed, never what was found nor
/// what the viewer was started with.
pub proof fn law_keys_keep_what_was_found(v: AppView, key: Key)
    requires
        v.page_size > 0,
    ensures
        ({
            let w = after_key(v, key).0;
            &&& w.results == v.results
            &&& w.file_path == v.file_path
            &&& w.raw_hex_mode == v.raw_hex_mode
            &&& w.total_regions == v.total_regions
            &&& w.page_size == v.page_size
            &&& w.scanning_done == v.scanning_done
            &&& w.threads == v.threads
            &&& w.json_filter == v.json_filter
            &&& w.range_start == v.range_start
            &&& w.range_end == v.range_end
            &&& !v.filter_input ==> w.filter == v.filter
        }),
{
    law_goto_stays_in_the_list(v);
}

/// Law: where nothing is being typed, `q` and `Q` leave the viewer, and Esc does where
/// no string is being inspected; nothing else does.
pub proof fn law_what_quits(v: AppView, key: Key)
    ensures
        after_key(v, key).1 == Step::Quit <==> !v.filter_input && !v.goto_input && (key
            == Key::Char('q') || key == Key::Char('Q') || key == Key::Esc && !v.hex_view),
{
}

/// Law: Esc, Enter, `h` and `H` lead from a string that is being inspected back to the
/// list, with nothing else changed.
pub proof fn law_what_leads_back(v: AppView, key: Key)
    requires
        !v.filter_input && !v.goto_input,
        v.hex_view,
        key == Key::Esc || key == Key::Enter || key == Key::Char('h') || key == Key::Char('H'),
    ensures
        after_key(v, key) == (AppView { hex_view: false, ..v }, Step::Continue),
{
}

/// Law: bringing the selection inside the list does so, and a selection that is
/// inside stays where it is.
pub proof fn law_bounds_hold(v: AppView)
    requires
        v.selected >= 0,
    ensures
        in_list(bounded(v)),
        in_list(v) ==> bounded(v).selected == v.selected,
        filtered(bounded(v)) == filtered(v),
{
    lemma_same_list(v, bounded(v), v.results.len());
}

/// Law: no key takes the selection out of the list.
pub proof fn law_keys_keep_selection_in_list(v: AppView, key: Key)
    requires
        in_list(v),
        v.page_size > 0,
    ensures
        in_list(after_key(v, key).0),
{
    let w = after_key(v, key).0;
    if v.filter_input {
        let u = filter_typed(v, key);
        lemma_same_list(u, w, v.results.len());
    } else {
        law_goto_stays_in_the_list(v);
        lemma_same_list(v, w, v.results.len());
        if page_of_selection(v) + 1 < page_count(v) {
            let page = page_of_selection(v) + 1;
            let u = AppView {
                selected: page * v.page_size,
                scroll_offset: page * v.page_size,
                ..v
            };
            lemma_same_list(v, u, v.results.len());
            assert(v.selected / v.page_size >= 0) by (nonlinear_arith)
                requires
                    v.selected >= 0,
                    v.page_size > 0,
            ;
            lemma_page_inside(filtered(v).len() as int, v.page_size, page);
        }
        if page_of_selection(v) - 1 >= 0 {
            lemma_page_start(v.selected, v.page_size);
        }
    }
}

/// Law: no key takes the cursor of the byte view out of the range.
pub proof fn law_keys_keep_cursor_in_range(v: AppView, key: Key)
    requires
        0 <= v.range_start,
        v.page_size > 0,
        in_range(v),
    ensures
        in_range(after_key(v, key).0),
{
    law_goto_stays_in_the_list(v);
}

/// Law: the byte view never begins behind its cursor.
pub proof fn law_byte_view_begins_before_cursor(v: AppView, key: Key)
    requires
        0 <= v.range_start,
        v.page_size > 0,
        in_range(v),
        begins_before_cursor(v),
    ensures
        begins_before_cursor(after_key(v, key).0),
{
    if !v.filter_input && v.goto_input {
        law_goto_stays_in_the_list(v);
        lemma_line_start(byte_view_at_typed(v).hex_cursor);
    } else if !v.filter_input && !v.hex_view && v.raw_hex_mode {
        lemma_bytes_key_begins_before_cursor(v, key);
    }
}

proof fn lemma_bytes_key_begins_before_cursor(v: AppView, key: Key)
    requires
        0 <= v.range_start,
        v.page_size > 0,
        in_range(v),
        begins_before_cursor(v),
    ensures
        begins_before_cursor(bytes_key(v, key).0),
{
    let page = bytes_per_page(v);
    let w = bytes_key(v, key).0;
    match key {
        Key::Up | Key::Char('k') => {
            lemma_line_start(w.hex_cursor);
        },
        Key::Left => {
            lemma_line_start(w.hex_cursor);
        },
        Key::Down | Key::Right | Key::Char('j') => {
            lemma_line_start(w.hex_cursor);
        },
        Key::PageUp | Key::Home => {
            lemma_line_start(v.range_start);
        },
        Key::PageDown => {
            lemma_line_start(less(v.range_end, 16));
        },
        Key::End => {
            lemma_line_start(larger(less(v.range_end, page), v.range_start));
        },
        _ => {},
    }
}

/// Law: while the cursor moves by bytes and lines, it stays on the page shown.
pub proof fn law_steps_keep_cursor_on_page(v: AppView, key: Key)
    requires
        0 <= v.range_start,
        0 <= v.hex_offset,
        v.page_size > 0,
        in_range(v),
        cursor_on_page(v),
        v.raw_hex_mode,
        !v.filter_input && !v.goto_input && !v.hex_view,
        moves_a_step(key),
    ensures
        cursor_on_page(after_key(v, key).0),
{
    lemma_line_start(after_key(v, key).0.hex_cursor);
}

/// Law: going to an offset in the byte view puts the cursor there, or at the end of
/// the range that is nearest to it, and shows the line of the cursor first.
pub proof fn law_goto_offset_in_byte_view(v: AppView, n: nat)
    requires
        v.raw_hex_mode,
        v.goto_input,
        !v.filter_input,
        0 <= v.range_start < v.range_end,
        read_offset(clean_offset(trim(v.goto_buf))) == Ok::<nat, NumberFault>(n),
    ensures
        ({
            let w = after_key(v, Key::Enter).0;
            &&& v.range_start <= n < v.range_end ==> w.hex_cursor == n
            &&& n < v.range_start ==> w.hex_cursor == v.range_start
            &&& n >= v.range_end ==> w.hex_cursor == v.range_end - 1
            &&& w.hex_offset <= w.hex_cursor < w.hex_offset + 16
            &&& w.hex_offset % 16 == 0
            &&& !w.goto_input
        }),
{
    lemma_line_start(after_key(v, Key::Enter).0.hex_cursor);
}

/// Law: a character typed where to go and taken back leaves everything as it was.
pub proof fn law_backspace_takes_back(v: AppView, c: char)
    requires
        v.goto_input,
        !v.filter_input,
    ensures
        after_key(after_key(v, Key::Char(c)).0, Key::Backspace).0 == v,
{
    assert(v.goto_buf.push(c).drop_last() == v.goto_buf);
}

/// Law: while the filter is typed, the filter is what is typed, and the one from before
/// is kept.
pub proof fn law_filter_follows_typing(v: AppView, key: Key)
    requires
        v.filter_input,
        key != Key::Enter && key != Key::Esc,
    ensures
        ({
            let w = after_key(v, key).0;
            &&& w.filter_input
            &&& w.filter == edited(v.goto_buf, key)
            &&& w.goto_buf == edited(v.goto_buf, key)
            &&& w.filter_before == v.filter_before
        }),
{
}

/// Law: Enter makes what was typed the filter; Esc goes back to the filter from before.
pub proof fn law_enter_applies_and_esc_cancels(v: AppView)
    requires
        v.filter_input,
    ensures
        ({
            let applied = after_key(v, Key::Enter).0;
            let canceled = after_key(v, Key::Esc).0;
            &&& !applied.filter_input && !canceled.filter_input
            &&& applied.filter == v.goto_buf
            &&& v.filter_before matches Some(before) ==> canceled.filter == before
        }),
{
}

/// Law: beginning to type a filter changes neither the filter nor the list.
pub proof fn law_typing_begins_with_the_filter(v: AppView)
    ensures
        asking_filter(v).filter == v.filter,
        asking_filter(v).filter_before == Some(v.filter),
        filtered(asking_filter(v)) == filtered(v),
{
    lemma_same_list(v, asking_filter(v), v.results.len());
}

/// The viewer after some keys, one after the other.
pub open spec fn after_keys(v: AppView, keys: Seq<Key>) -> AppView
    decreases keys.len(),
{
    if keys.len() == 0 {
        v
    } else {
        after_key(after_keys(v, keys.drop_last()), keys.last()).0
    }
}

/// Law: a filter that is typed and canceled leaves the filter and the list as they
/// were, whatever was typed.
pub proof fn law_canceled_typing_changes_no_filter(v: AppView, keys: Seq<Key>)
    requires
        !keys.contains(Key::Enter),
        !keys.contains(Key::Esc),
    ensures
        ({
            let typed = after_keys(asking_filter(v), keys);
            let canceled = after_key(typed, Key::Esc).0;
            &&& typed.filter_input
            &&& typed.filter_before == Some(v.filter)
            &&& typed.results == v.results
            &&& !canceled.filter_input
            &&& canceled.filter == v.filter
            &&& filtered(canceled) == filtered(v)
        }),
    decreases keys.len(),
{
    let typed = after_keys(asking_filter(v), keys);
    let canceled = after_key(typed, Key::Esc).0;
    if keys.len() > 0 {
        let front = keys.drop_last();
        assert(keys.contains(keys[keys.len() - 1]));
        assert forall|key: Key| front.contains(key) implies keys.contains(key) by {
            let i = choose|i: int| 0 <= i < front.len() && front[i] == key;
            assert(keys[i] == key);
        }
        law_canceled_typing_changes_no_filter(v, front);
        assert(typed.results == v.results);
    }
    lemma_same_list(v, canceled, v.results.len());
}

/// Law: a page on and a page back leads to the beginning of the page that was left.
pub proof fn law_page_on_and_back(v: AppView)
    requires
        v.page_size > 0,
        v.selected >= 0,
        page_of_selection(v) + 1 < page_count(v),
    ensures
        paged_back(paged_forward(v)).selected == page_of_selection(v) * v.page_size,
{
    let page = page_of_selection(v) + 1;
    let u = AppView { selected: page * v.page_size, scroll_offset: page * v.page_size, ..v };
    let w = paged_forward(v);
    lemma_same_list(v, u, v.results.len());
    lemma_same_list(v, w, v.results.len());
    assert(v.selected / v.page_size >= 0) by (nonlinear_arith)
        requires
            v.selected >= 0,
            v.page_size > 0,
    ;
    lemma_page_inside(filtered(v).len() as int, v.page_size, page);
    if filtered(v).len() > 0 {
        assert((page * v.page_size) / v.page_size == page) by (nonlinear_arith)
            requires
                v.page_size > 0,
        ;
    }
}

/// Whether the byte view takes the keys, its cursor being in the range.
pub open spec fn byte_view_open(v: AppView) -> bool {
    &&& !v.filter_input && !v.goto_input && !v.hex_view && v.raw_hex_mode
    &&& 0 <= v.range_start <= v.hex_cursor < v.range_end
    &&& v.page_size > 0
}

/// Whether the list takes the keys, with a string of it selected.
pub open spec fn list_open(v: AppView) -> bool {
    &&& !v.filter_input && !v.goto_input && !v.hex_view && !v.raw_hex_mode
    &&& 0 <= v.selected < filtered(v).len()
    &&& v.selected <= isize::MAX
    &&& v.page_size > 0
}

/// Whether a key moved the cursor of the byte view by `by` bytes, as far as the range goes.
pub open spec fn cursor_moved(v: AppView, key: Key, by: int) -> bool {
    let w = after_key(v, key).0;
    &&& v.range_start <= v.hex_cursor + by < v.range_end ==> w.hex_cursor == v.hex_cursor + by
    &&& v.hex_cursor + by < v.range_start ==> w.hex_cursor == v.range_start
    &&& v.hex_cursor + by >= v.range_end ==> w.hex_cursor == v.range_end - 1
}

/// Law: in the byte view Left and Right move the cursor by a byte, Up, Down, `k` and `j`
/// by sixteen, and PageUp and PageDown by as many lines of sixteen as a page has, forty at
/// most; Home leads to the first byte of the range and End to the last.
pub proof fn law_cursor_moves_by_bytes_lines_and_pages(v: AppView)
    requires
        byte_view_open(v),
    ensures
        cursor_moved(v, Key::Left, -1),
        cursor_moved(v, Key::Right, 1),
        cursor_moved(v, Key::Up, -16),
        cursor_moved(v, Key::Char('k'), -16),
        cursor_moved(v, Key::Down, 16),
        cursor_moved(v, Key::Char('j'), 16),
        v.page_size <= 40 ==> cursor_moved(v, Key::PageUp, -16 * v.page_size) && cursor_moved(
            v,
            Key::PageDown,
            16 * v.page_size,
        ),
        v.page_size > 40 ==> cursor_moved(v, Key::PageUp, -640) && cursor_moved(
            v,
            Key::PageDown,
            640,
        ),
        after_key(v, Key::Home).0.hex_cursor == v.range_start,
        after_key(v, Key::End).0.hex_cursor == v.range_end - 1,
{
}

/// Law: a key that moves the cursor of the byte view changes the cursor and where the view
/// begins, nothing else, and does not leave the viewer.
pub proof fn law_cursor_keys_change_nothing_else(v: AppView, key: Key)
    requires
        byte_view_open(v),
        moves_a_step(key) || key == Key::PageUp || key == Key::PageDown || key == Key::Home || key
            == Key::End,
    ensures
        ({
            let (w, step) = after_key(v, key);
            &&& w == (AppView { hex_cursor: w.hex_cursor, hex_offset: w.hex_offset, ..v })
            &&& step == Step::Continue
        }),
{
}

/// Law: what moves the cursor on and what moves it back undo each other inside the range.
pub proof fn law_cursor_goes_there_and_back(v: AppView)
    requires
        byte_view_open(v),
    ensures
        v.hex_cursor + 1 < v.range_end ==> after_key(
            after_key(v, Key::Right).0,
            Key::Left,
        ).0.hex_cursor == v.hex_cursor,
        v.hex_cursor - 1 >= v.range_start ==> after_key(
            after_key(v, Key::Left).0,
            Key::Right,
        ).0.hex_cursor == v.hex_cursor,
        v.hex_cursor + 16 < v.range_end ==> after_key(
            after_key(v, Key::Down).0,
            Key::Up,
        ).0.hex_cursor == v.hex_cursor,
        v.hex_cursor - 16 >= v.range_start ==> after_key(
            after_key(v, Key::Up).0,
            Key::Down,
        ).0.hex_cursor == v.hex_cursor,
        v.hex_cursor + 640 < v.range_end ==> after_key(
            after_key(v, Key::PageDown).0,
            Key::PageUp,
        ).0.hex_cursor == v.hex_cursor,
{
}

/// Law: while the cursor stays on the page shown, moving it by bytes and lines does not
/// scroll; where it leaves the page, it is on the first line shown or on the last.
pub proof fn law_byte_view_scrolls_as_little_as_needed(v: AppView, key: Key)
    requires
        byte_view_open(v),
        cursor_on_page(v),
        0 <= v.hex_offset,
        v.hex_offset % 16 == 0,
        moves_a_step(key),
    ensures
        ({
            let w = after_key(v, key).0;
            let page = if v.page_size <= 40 {
                16 * v.page_size
            } else {
                640
            };
            &&& v.hex_offset <= w.hex_cursor < v.hex_offset + page ==> w.hex_offset == v.hex_offset
            &&& w.hex_cursor < v.hex_offset ==> w.hex_offset == w.hex_cursor - w.hex_cursor % 16
            &&& w.hex_cursor >= v.hex_offset + page ==> w.hex_offset + page == w.hex_cursor
                - w.hex_cursor % 16 + 16
        }),
{
}

/// Law: what the byte view shows begins at a line of sixteen, whatever key is pressed.
pub proof fn law_byte_view_begins_at_a_line(v: AppView, key: Key)
    requires
        byte_view_open(v),
        v.hex_offset % 16 == 0,
        v.hex_offset >= 0,
    ensures
        after_key(v, key).0.hex_offset % 16 == 0,
{
    let rows = smaller(v.page_size, 40);
    match key {
        Key::Up | Key::Char('k') | Key::Left => {
            lemma_line_start(after_key(v, key).0.hex_cursor);
        },
        Key::Down | Key::Char('j') | Key::Right => {
            let c = after_key(v, key).0.hex_cursor;
            lemma_line_start(c);
            lemma_lines_apart(line_start(c), 1 - rows);
        },
        Key::PageUp => {
            lemma_line_start(v.range_start);
            lemma_lines_apart(v.hex_offset, -rows);
        },
        Key::PageDown => {
            lemma_line_start(less(v.range_end, 16));
            lemma_lines_apart(v.hex_offset, rows);
        },
        Key::Home => {
            lemma_line_start(v.range_start);
        },
        Key::End => {
            lemma_line_start(larger(less(v.range_end, bytes_per_page(v)), v.range_start));
        },
        _ => {},
    }
}

proof fn lemma_lines_apart(at: int, lines: int)
    requires
        at % 16 == 0,
    ensures
        (at + lines * 16) % 16 == 0,
{
}

/// Law: PageDown and PageUp move what the byte view shows by a page, as far as there are
/// bytes to show; Home shows the beginning of the range and End its last byte.
pub proof fn law_byte_view_pages(v: AppView)
    requires
        byte_view_open(v),
        0 <= v.hex_offset,
    ensures
        ({
            let page = if v.page_size <= 40 {
                16 * v.page_size
            } else {
                640
            };
            let on = after_key(v, Key::PageDown).0;
            let back = after_key(v, Key::PageUp).0;
            let home = after_key(v, Key::Home).0;
            let end = after_key(v, Key::End).0;
            &&& v.hex_offset + page + 31 < v.range_end ==> on.hex_offset == v.hex_offset + page
            &&& v.hex_offset + page + 31 >= v.range_end >= 16 ==> on.hex_offset == v.hex_offset
                + page || v.range_end - 32 < on.hex_offset <= v.range_end - 16
            &&& v.range_end < 16 ==> on.hex_offset == 0
            &&& on.hex_offset <= v.hex_offset + page
            &&& v.hex_offset - page >= v.range_start ==> back.hex_offset == v.hex_offset - page
            &&& v.hex_offset - page < v.range_start ==> back.hex_offset == v.hex_offset - page
                || back.hex_offset <= v.range_start < back.hex_offset + 16
            &&& back.hex_offset >= v.hex_offset - page
            &&& home.hex_offset <= v.range_start < home.hex_offset + 16
            &&& v.range_end - v.range_start >= page ==> v.range_end - page - 16 < end.hex_offset
                <= v.range_end - page
            &&& v.range_end - v.range_start < page ==> end.hex_offset <= v.range_start
                < end.hex_offset + 16
        }),
{
}

/// Law: in the list Down and `j` select the next string, Up and `k` the one before, Home the
/// first and End the last; at the ends of the list they change nothing.
pub proof fn law_list_keys_move_the_selection(v: AppView)
    requires
        list_open(v),
    ensures
        ({
            let last = filtered(v).len() - 1;
            let on = AppView { selected: v.selected + 1, ..v };
            let back = AppView { selected: v.selected - 1, ..v };
            &&& v.selected < last ==> after_key(v, Key::Down).0 == on && after_key(
                v,
                Key::Char('j'),
            ).0 == on
            &&& v.selected == last ==> after_key(v, Key::Down).0 == v && after_key(
                v,
                Key::Char('j'),
            ).0 == v
            &&& v.selected > 0 ==> after_key(v, Key::Up).0 == back && after_key(
                v,
                Key::Char('k'),
            ).0 == back
            &&& v.selected == 0 ==> after_key(v, Key::Up).0 == v && after_key(
                v,
                Key::Char('k'),
            ).0 == v
            &&& after_key(v, Key::Home).0 == (AppView { selected: 0, ..v })
            &&& after_key(v, Key::End).0 == (AppView { selected: last, ..v })
        }),
{
    law_moving_moves_by_as_much(v, 1);
    law_moving_moves_by_as_much(v, -1);
}

/// Law: in the list Right and PageDown lead to the beginning of the next page, Left and
/// PageUp to that of the page before, where there is one.
pub proof fn law_list_keys_turn_pages(v: AppView)
    requires
        list_open(v),
    ensures
        ({
            let top = v.selected - v.selected % v.page_size;
            let next = top + v.page_size;
            let before = top - v.page_size;
            let on = AppView { selected: next, scroll_offset: next, ..v };
            let back = AppView { selected: before, scroll_offset: before, ..v };
            &&& next < filtered(v).len() ==> after_key(v, Key::Right).0 == on && after_key(
                v,
                Key::PageDown,
            ).0 == on
            &&& next >= filtered(v).len() ==> after_key(v, Key::Right).0 == v && after_key(
                v,
                Key::PageDown,
            ).0 == v
            &&& v.selected >= v.page_size ==> after_key(v, Key::Left).0 == back && after_key(
                v,
                Key::PageUp,
            ).0 == back
            &&& v.selected < v.page_size ==> after_key(v, Key::Left).0 == v && after_key(
                v,
                Key::PageUp,
            ).0 == v
        }),
{
    law_next_page_begins_behind(v);
    law_previous_page_begins_before(v);
}

/// Law: in the list Enter, `h` and `H` show the bytes around the selected string; with no
/// string listed they change nothing.
pub proof fn law_what_inspects(v: AppView, key: Key)
    requires
        !v.filter_input && !v.goto_input && !v.hex_view && !v.raw_hex_mode,
        key == Key::Enter || key == Key::Char('h') || key == Key::Char('H'),
    ensures
        filtered(v).len() > 0 ==> after_key(v, key).0 == (AppView { hex_view: true, ..v }),
        filtered(v).len() == 0 ==> after_key(v, key).0 == v,
{
}

/// Law: `g` and `G` ask where to go, with nothing typed; in the list `f`, `F` and `/` ask
/// for the filter, beginning with the one in use.
pub proof fn law_what_asks(v: AppView)
    requires
        !v.filter_input && !v.goto_input && !v.hex_view,
    ensures
        ({
            let place = AppView { goto_input: true, goto_buf: Seq::empty(), ..v };
            let filter = AppView {
                filter_input: true,
                filter_before: Some(v.filter),
                goto_buf: v.filter,
                ..v
            };
            &&& after_key(v, Key::Char('g')).0 == place
            &&& after_key(v, Key::Char('G')).0 == place
            &&& !v.raw_hex_mode ==> after_key(v, Key::Char('f')).0 == filter && after_key(
                v,
                Key::Char('F'),
            ).0 == filter && after_key(v, Key::Char('/')).0 == filter
        }),
{
}

/// Law: while a string is inspected, Right and Down inspect the next one, Left and Up the one
/// before; at the ends of the list they change nothing.
pub proof fn law_inspection_goes_on_and_back(v: AppView)
    requires
        !v.filter_input && !v.goto_input && v.hex_view,
        0 <= v.selected < filtered(v).len(),
        v.selected <= isize::MAX,
    ensures
        ({
            let last = filtered(v).len() - 1;
            let on = AppView { selected: v.selected + 1, ..v };
            let back = AppView { selected: v.selected - 1, ..v };
            &&& v.selected < last ==> after_key(v, Key::Right).0 == on && after_key(v, Key::Down).0
                == on
            &&& v.selected == last ==> after_key(v, Key::Right).0 == v && after_key(
                v,
                Key::Down,
            ).0 == v
            &&& v.selected > 0 ==> after_key(v, Key::Left).0 == back && after_key(v, Key::Up).0
                == back
            &&& v.selected == 0 ==> after_key(v, Key::Left).0 == v && after_key(v, Key::Up).0 == v
        }),
{
    law_moving_moves_by_as_much(v, 1);
    law_moving_moves_by_as_much(v, -1);
}

/// Law: while a place to go to is typed, a character is put behind what was typed, whatever
/// character it is; Backspace takes the last one away; Esc forgets what was typed.
pub proof fn law_what_is_typed(v: AppView, c: char)
    requires
        v.goto_input,
        !v.filter_input,
    ensures
        after_key(v, Key::Char(c)).0 == (AppView { goto_buf: v.goto_buf + seq![c], ..v }),
        v.goto_buf.len() > 0 ==> after_key(v, Key::Backspace).0 == (AppView {
            goto_buf: v.goto_buf.subrange(0, v.goto_buf.len() - 1),
            ..v
        }),
        v.goto_buf.len() == 0 ==> after_key(v, Key::Backspace).0 == v,
        after_key(v, Key::Esc).0 == (AppView { goto_input: false, goto_buf: Seq::empty(), ..v }),
{
    assert(v.goto_buf.push(c) =~= v.goto_buf + seq![c]);
    if v.goto_buf.len() > 0 {
        assert(v.goto_buf.drop_last() =~= v.goto_buf.subrange(0, v.goto_buf.len() - 1));
    }
}

/// Law: while the filter is typed, a character is put behind it, whatever character it is,
/// and Backspace takes the last one away.
pub proof fn law_what_filter_is_typed(v: AppView, c: char)
    requires
        v.filter_input,
    ensures
        after_key(v, Key::Char(c)).0.filter == v.goto_buf + seq![c],
        after_key(v, Key::Char(c)).0.goto_buf == v.goto_buf + seq![c],
        v.goto_buf.len() > 0 ==> after_key(v, Key::Backspace).0.filter == v.goto_buf.subrange(
            0,
            v.goto_buf.len() - 1,
        ),
        v.goto_buf.len() == 0 ==> after_key(v, Key::Backspace).0.filter == v.goto_buf,
        filtered(after_key(v, Key::Enter).0).len() > 0 ==> after_key(v, Key::Enter).0.selected == 0,
{
    assert(v.goto_buf.push(c) =~= v.goto_buf + seq![c]);
    if v.goto_buf.len() > 0 {
        assert(v.goto_buf.drop_last() =~= v.goto_buf.subrange(0, v.goto_buf.len() - 1));
    }
}

/// Law: where a place was typed in the list, Enter selects what going there selects, and the
/// typing ends.
pub proof fn law_enter_goes_there(v: AppView)
    requires
        v.goto_input,
        !v.filter_input && !v.raw_hex_mode,
        v.page_size > 0,
    ensures
        ({
            let w = after_key(v, Key::Enter).0;
            &&& w.selected == gone_to(v).selected
            &&& w == (AppView {
                goto_input: false,
                goto_buf: Seq::empty(),
                selected: w.selected,
                scroll_offset: w.scroll_offset,
                ..v
            })
        }),
{
    law_goto_stays_in_the_list(v);
}

/// Law: a place that cannot be read leaves the byte view where it is.
pub proof fn law_unreadable_place_leads_nowhere(v: AppView)
    requires
        v.goto_input,
        !v.filter_input,
        v.raw_hex_mode,
        read_offset(clean_offset(trim(v.goto_buf))) is Err,
    ensures
        after_key(v, Key::Enter).0 == (AppView { goto_input: false, goto_buf: Seq::empty(), ..v }),
{
}

/// Law: where nothing is typed, a key without a meaning changes nothing.
pub proof fn law_other_keys_change_nothing(v: AppView, c: char)
    requires
        !v.filter_input && !v.goto_input,
        c != 'q' && c != 'Q' && c != 'g' && c != 'G' && c != 'f' && c != 'F' && c != '/' && c != 'h'
            && c != 'H' && c != 'k' && c != 'j',
    ensures
        after_key(v, Key::Char(c)) == (v, Step::Continue),
        after_key(v, Key::Other) == (v, Step::Continue),
        after_key(v, Key::Backspace) == (v, Step::Continue),
{
}

/// Law: while a string is inspected, and in the byte view, keys that mean something elsewhere
/// change nothing.
pub proof fn law_keys_of_other_views_change_nothing(v: AppView, key: Key)
    requires
        !v.filter_input && !v.goto_input,
        v.hex_view || v.raw_hex_mode,
        v.hex_view ==> key == Key::Home || key == Key::End || key == Key::PageUp || key
            == Key::PageDown || key == Key::Char('g') || key == Key::Char('G') || key == Key::Char(
            'j',
        ) || key == Key::Char('k') || key == Key::Char('f') || key == Key::Char('F') || key
            == Key::Char('/'),
        !v.hex_view ==> key == Key::Enter || key == Key::Char('f') || key == Key::Char('F') || key
            == Key::Char('/') || key == Key::Char('h') || key == Key::Char('H'),
    ensures
        after_key(v, key) == (v, Step::Continue),
{
}

/// Law: while something is typed, a key that is no character, no Backspace, no Enter and no Esc
/// leaves what was typed.
pub proof fn law_other_keys_leave_the_typing(v: AppView, key: Key)
    requires
        v.filter_input || v.goto_input,
        !(key is Char) && key != Key::Backspace && key != Key::Enter && key != Key::Esc,
    ensures
        after_key(v, key).0.goto_buf == v.goto_buf,
        after_key(v, key).1 == Step::Continue,
        v.filter_input ==> after_key(v, key).0.filter == v.goto_buf,
        !v.filter_input ==> after_key(v, key).0 == v,
{
}

/// Law: while the filter is typed, the selection stays where it is as long as the list is long
/// enough, and moves to the end of the list if it is not.
pub proof fn law_selection_while_filtering(v: AppView, key: Key)
    requires
        v.filter_input,
        key != Key::Enter,
        v.selected >= 0,
    ensures
        ({
            let w = after_key(v, key).0;
            let n = filtered(w).len();
            &&& v.selected < n ==> w.selected == v.selected
            &&& n > 0 && v.selected >= n ==> w.selected == n - 1
            &&& n == 0 ==> w.selected == 0
        }),
{
    lemma_same_list(filter_typed(v, key), after_key(v, key).0, v.results.len());
}

/// Law: in an empty list no key but those that ask or leave does anything: the selection stays
/// at its beginning, and nothing is inspected.
pub proof fn law_keys_in_an_empty_list(v: AppView, key: Key)
    requires
        !v.filter_input && !v.goto_input && !v.hex_view && !v.raw_hex_mode,
        filtered(v).len() == 0,
        v.selected == 0,
        !(key is Char) || key == Key::Char('j') || key == Key::Char('k') || key == Key::Char('h')
            || key == Key::Char('H'),
    ensures
        after_key(v, key).0 == v,
{
}

/// Law: while the filter is typed, a key changes the filter, what is typed, and the selection and
/// the first line shown where the list has become too short for them. Enter and Esc end the
/// typing.
pub proof fn law_filter_keys_change_nothing_else(v: AppView, key: Key)
    requires
        v.filter_input,
        v.scroll_offset >= 0,
    ensures
        ({
            let w = after_key(v, key).0;
            let n = filtered(w).len();
            let ends = key == Key::Enter || key == Key::Esc;
            &&& w == (AppView {
                filter: w.filter,
                filter_input: !ends,
                filter_before: if ends {
                    None
                } else {
                    v.filter_before
                },
                goto_buf: w.goto_buf,
                selected: w.selected,
                scroll_offset: w.scroll_offset,
                ..v
            })
            &&& ends ==> w.goto_buf == v.goto_buf
            &&& key == Key::Esc && v.filter_before is None ==> w.filter == v.filter
            &&& v.scroll_offset < n ==> w.scroll_offset == v.scroll_offset
            &&& n > 0 && v.scroll_offset >= n ==> w.scroll_offset == n - 1
            &&& n == 0 ==> w.scroll_offset == 0
        }),
{
    lemma_same_list(filter_typed(v, key), after_key(v, key).0, v.results.len());
}

} // verus!
