use hextatui::arrivals::{takes_more, Poll};
use hextatui::cli::{Args, DEFAULT_CHUNK, DEFAULT_REGION, MIN_STRING, OVERLAP};
use hextatui::events::handle_goto;
use hextatui::keys::{Key, Step};
use hextatui::result::{Encoding, FileJob, ScanResult};
use hextatui::session::{open_viewer, visit_entry, visit_input, EntryKind, Visit};
use hextatui::tui::{positions_of_matches, InteractiveApp};
use std::path::PathBuf;

fn result(offset: u64, text: &str) -> ScanResult {
    ScanResult { offset, length: text.len(), encoding: Encoding::Ascii, text: text.to_string() }
}

fn viewer(n: u64, page_size: usize) -> InteractiveApp {
    let mut app = InteractiveApp::new(PathBuf::from("file.bin"), 0, page_size);
    for i in 0..n {
        app.results.push(result(i * 0x100, &format!("text {i}")));
    }
    app
}

fn byte_viewer(start: u64, end: u64, page_size: usize) -> InteractiveApp {
    let mut app = viewer(0, page_size);
    app.raw_hex_mode = true;
    app.range_start = start;
    app.range_end = end;
    app.hex_offset = start;
    app.hex_cursor = start;
    app
}

fn args() -> Args {
    Args {
        input: PathBuf::from("in"),
        threads: 0,
        chunk: DEFAULT_CHUNK,
        region: DEFAULT_REGION,
        strings_only: false,
        hex_only: false,
        min_string: MIN_STRING,
        recursive: true,
        interactive: false,
        page_size: 50,
        output: None,
        json: false,
        start_offset: None,
        end_offset: None,
        range: None,
    }
}

fn typed(app: &mut InteractiveApp, s: &str) {
    for c in s.chars() {
        assert_eq!(app.handle_key(Key::Char(c)), Step::Continue);
    }
}

fn go(app: &mut InteractiveApp, s: &str) {
    app.goto_buf = s.to_string();
    handle_goto(app);
}

#[test]
fn a_new_viewer_is_empty() {
    let app = InteractiveApp::new(PathBuf::from("a/b"), 77, 5);
    assert_eq!(app.file_path, PathBuf::from("a/b"));
    assert_eq!(app.page_size, 5);
    assert_eq!(app.filtered_len(), 0);
    assert_eq!(app.total_pages(), 1);
    assert_eq!(app.current_page(), 0);
    assert!(app.selected_result().is_none());
    assert!(!app.scanning_done && !app.raw_hex_mode && !app.hex_view);
    assert_eq!((app.range_start, app.range_end, app.total_regions, app.threads), (0, 0, 0, 0));
}

#[test]
fn the_filter_ignores_case() {
    let mut app = viewer(0, 10);
    for (i, t) in ["Hello World", "goodbye", "HELLO", "Grüße", "ΣΑΣ"].iter().enumerate() {
        app.results.push(result(i as u64, t));
    }
    assert_eq!(app.filtered_indices(), vec![0, 1, 2, 3, 4]);
    app.filter = "hello".to_string();
    assert_eq!(app.filtered_indices(), vec![0, 2]);
    app.filter = "O W".to_string();
    assert_eq!(app.filtered_indices(), vec![0]);
    app.filter = "GRÜ".to_string();
    assert_eq!(app.filtered_indices(), vec![3]);
    app.filter = "nothing".to_string();
    assert!(app.filtered_indices().is_empty());
    for f in ["ς", "σα", "ß", "İ", "e"] {
        app.filter = f.to_string();
        let lower = f.to_lowercase();
        let want: Vec<usize> = app
            .results
            .iter()
            .enumerate()
            .filter(|(_, r)| r.text.to_lowercase().contains(&lower))
            .map(|(i, _)| i)
            .collect();
        assert_eq!(app.filtered_indices(), want, "{f}");
    }
}

#[test]
fn matches_are_given_by_position() {
    let hays: Vec<Vec<char>> =
        ["abc", "", "cab", "ba"].iter().map(|s| s.chars().collect()).collect();
    assert_eq!(positions_of_matches(&vec!['a', 'b'], &hays), vec![0, 2]);
    assert_eq!(positions_of_matches(&Vec::new(), &hays), vec![0, 1, 2, 3]);
    assert!(positions_of_matches(&vec!['x'], &hays).is_empty());
}

#[test]
fn pages_are_counted_up() {
    assert_eq!(viewer(10, 5).total_pages(), 2);
    assert_eq!(viewer(11, 5).total_pages(), 3);
    assert_eq!(viewer(1, 5).total_pages(), 1);
    let mut app = viewer(11, 5);
    app.selected = 9;
    assert_eq!(app.current_page(), 1);
    assert_eq!(app.selected_result().map(|r| r.offset), Some(0x900));
    app.selected = 11;
    assert!(app.selected_result().is_none());
}

#[test]
fn pages_are_turned() {
    let mut app = viewer(11, 5);
    app.selected = 3;
    app.next_page();
    assert_eq!((app.selected, app.scroll_offset), (5, 5));
    app.next_page();
    assert_eq!((app.selected, app.scroll_offset), (10, 10));
    app.next_page();
    assert_eq!((app.selected, app.scroll_offset), (10, 10));
    app.prev_page();
    assert_eq!((app.selected, app.scroll_offset), (5, 5));
    app.prev_page();
    app.prev_page();
    assert_eq!((app.selected, app.scroll_offset), (0, 0));
}

#[test]
fn a_page_on_and_back_leads_to_the_beginning_of_the_page() {
    let mut app = viewer(11, 5);
    app.selected = 7;
    app.next_page();
    app.prev_page();
    assert_eq!(app.selected, 5);
}

#[test]
fn the_selection_moves_inside_the_list() {
    let mut app = viewer(3, 5);
    app.move_selection(-1);
    assert_eq!(app.selected, 0);
    app.move_selection(2);
    assert_eq!(app.selected, 2);
    app.move_selection(1);
    assert_eq!(app.selected, 2);
    app.move_selection(isize::MIN);
    assert_eq!(app.selected, 0);
    let mut empty = viewer(0, 5);
    empty.selected = 4;
    empty.move_selection(1);
    assert_eq!(empty.selected, 4);
}

#[test]
fn bounds_are_restored() {
    let mut app = viewer(3, 5);
    app.selected = 9;
    app.scroll_offset = 7;
    app.ensure_selected_in_bounds();
    assert_eq!((app.selected, app.scroll_offset), (2, 2));
    let mut empty = viewer(0, 5);
    empty.selected = 9;
    empty.scroll_offset = 7;
    empty.ensure_selected_in_bounds();
    assert_eq!((empty.selected, empty.scroll_offset), (0, 0));
}

#[test]
fn the_selection_is_scrolled_into_view() {
    let mut app = viewer(20, 50);
    app.selected = 12;
    app.ensure_visible(5);
    assert_eq!(app.scroll_offset, 8);
    app.selected = 3;
    app.ensure_visible(5);
    assert_eq!(app.scroll_offset, 3);
    app.selected = 7;
    app.ensure_visible(5);
    assert_eq!(app.scroll_offset, 3);
    app.selected = 19;
    app.ensure_visible(0);
    assert_eq!(app.scroll_offset, 3);
}

#[test]
fn results_are_given_sorted() {
    let mut app = viewer(0, 5);
    app.results = vec![result(9, "c"), result(1, "a"), result(9, "b")];
    let sorted: Vec<String> = app.sorted_results().iter().map(|r| r.text.clone()).collect();
    assert_eq!(sorted, vec!["a", "c", "b"]);
    assert_eq!(app.results[0].offset, 9);
}

#[test]
fn goto_takes_offsets_pages_and_numbers() {
    let mut app = viewer(30, 10);
    go(&mut app, "0x501");
    assert_eq!(app.selected, 6);
    go(&mut app, "0xFFFFFF");
    assert_eq!(app.selected, 29);
    go(&mut app, " 2 ");
    assert_eq!(app.selected, 10);
    go(&mut app, "4");
    assert_eq!(app.selected, 1);
    go(&mut app, "512");
    assert_eq!(app.selected, 2);
    go(&mut app, "99999999");
    assert_eq!(app.selected, 2);
    go(&mut app, "#7");
    assert_eq!(app.selected, 6);
    go(&mut app, "##30");
    assert_eq!(app.selected, 29);
    go(&mut app, "#31");
    assert_eq!(app.selected, 29);
    go(&mut app, "#0");
    assert_eq!(app.selected, 29);
    go(&mut app, "");
    go(&mut app, "0xzz");
    go(&mut app, "nonsense");
    assert_eq!(app.selected, 29);
    go(&mut app, "000003");
    assert_eq!(app.selected, 1);
}

#[test]
fn goto_in_an_empty_list_changes_nothing() {
    let mut app = viewer(0, 10);
    app.selected = 3;
    go(&mut app, "0x10");
    assert_eq!(app.selected, 3);
    go(&mut app, "1");
    assert_eq!(app.selected, 0);
}

#[test]
fn keys_move_in_the_list() {
    let mut app = viewer(25, 10);
    for (key, want) in [
        (Key::Down, 1),
        (Key::Char('j'), 2),
        (Key::Up, 1),
        (Key::Char('k'), 0),
        (Key::Right, 10),
        (Key::PageDown, 20),
        (Key::Left, 10),
        (Key::PageUp, 0),
        (Key::End, 24),
        (Key::Home, 0),
        (Key::Other, 0),
        (Key::Char('x'), 0),
    ] {
        assert_eq!(app.handle_key(key), Step::Continue);
        assert_eq!(app.selected, want, "{key:?}");
    }
    for key in [Key::Esc, Key::Char('q'), Key::Char('Q')] {
        assert_eq!(app.handle_key(key), Step::Quit);
    }
}

#[test]
fn a_string_is_inspected_and_left() {
    let mut app = viewer(3, 10);
    for open in [Key::Enter, Key::Char('h'), Key::Char('H')] {
        for leave in [Key::Esc, Key::Enter, Key::Char('h'), Key::Char('H')] {
            assert_eq!(app.handle_key(open), Step::Continue);
            assert!(app.hex_view);
            assert_eq!(app.handle_key(leave), Step::Continue);
            assert!(!app.hex_view);
        }
    }
    app.handle_key(Key::Enter);
    app.handle_key(Key::Right);
    app.handle_key(Key::Down);
    assert_eq!(app.selected, 2);
    app.handle_key(Key::Left);
    app.handle_key(Key::Up);
    app.handle_key(Key::Char('z'));
    assert_eq!(app.selected, 0);
    for quit in [Key::Char('q'), Key::Char('Q')] {
        assert!(app.hex_view);
        assert_eq!(app.handle_key(quit), Step::Quit);
    }
    let mut empty = viewer(0, 10);
    empty.handle_key(Key::Enter);
    assert!(!empty.hex_view);
}

#[test]
fn the_list_follows_the_filter_that_is_typed() {
    let mut app = viewer(12, 10);
    app.selected = 11;
    app.handle_key(Key::Char('/'));
    assert!(app.filter_input);
    typed(&mut app, "t 1q");
    assert_eq!((app.filter.as_str(), app.filtered_len(), app.selected), ("t 1q", 0, 0));
    app.handle_key(Key::Backspace);
    assert_eq!((app.filter.as_str(), app.filtered_len()), ("t 1", 3));
    app.handle_key(Key::Left);
    assert_eq!(app.filter, "t 1");
    app.selected = 2;
    app.handle_key(Key::Enter);
    assert_eq!((app.filter_input, app.filter.as_str(), app.selected), (false, "t 1", 0));
    assert_eq!(app.filtered_len(), 3);
}

#[test]
fn the_list_goes_by_the_filter_in_every_state() {
    let mut app = viewer(1, 10);
    app.filter_input = true;
    app.goto_buf = "z".to_string();
    assert_eq!(app.filtered_indices(), vec![0]);
    app.filter = "z".to_string();
    app.goto_buf = String::new();
    assert!(app.filtered_indices().is_empty());
    app.handle_key(Key::Esc);
    assert_eq!((app.filter_input, app.filter.as_str()), (false, "z"));
}

#[test]
fn a_filter_is_canceled() {
    let mut app = viewer(12, 10);
    app.handle_key(Key::Char('f'));
    typed(&mut app, "ab");
    assert_eq!(app.handle_key(Key::Esc), Step::Continue);
    assert_eq!((app.filter_input, app.filter.as_str(), app.filtered_len()), (false, "", 12));
    app.handle_key(Key::Char('F'));
    typed(&mut app, "1");
    app.handle_key(Key::Enter);
    app.handle_key(Key::Char('f'));
    assert_eq!((app.goto_buf.as_str(), app.filtered_len()), ("1", 3));
    typed(&mut app, "zz");
    assert_eq!(app.filtered_len(), 0);
    app.handle_key(Key::Esc);
    assert_eq!((app.filter_input, app.filter.as_str(), app.filtered_len()), (false, "1", 3));
    assert_eq!(app.handle_key(Key::Char('q')), Step::Quit);
}

#[test]
fn a_place_to_go_to_is_typed() {
    let mut app = viewer(30, 10);
    app.handle_key(Key::Char('g'));
    typed(&mut app, "0x5G");
    app.handle_key(Key::Backspace);
    typed(&mut app, "00");
    assert_eq!(app.goto_buf, "0x500");
    app.handle_key(Key::Enter);
    assert_eq!((app.selected, app.goto_input, app.goto_buf.as_str()), (5, false, ""));
    app.handle_key(Key::Char('G'));
    typed(&mut app, "3");
    app.handle_key(Key::Esc);
    assert_eq!((app.selected, app.goto_input, app.goto_buf.as_str()), (5, false, ""));
    app.handle_key(Key::Char('g'));
    app.handle_key(Key::Backspace);
    app.handle_key(Key::Left);
    assert_eq!((app.goto_input, app.goto_buf.as_str()), (true, ""));
}

#[test]
fn the_byte_cursor_stays_in_the_range() {
    let mut app = byte_viewer(0x103, 0x1234, 2);
    let mut step: u32 = 7;
    let keys = [
        Key::Up, Key::Down, Key::Left, Key::Right, Key::PageUp, Key::PageDown, Key::Home, Key::End,
        Key::Char('j'), Key::Char('k'),
    ];
    for _ in 0..2000 {
        step = step.wrapping_mul(1664525).wrapping_add(1013904223);
        assert_eq!(app.handle_key(keys[(step >> 16) as usize % keys.len()]), Step::Continue);
        assert!(app.range_start <= app.hex_cursor && app.hex_cursor < app.range_end);
        assert!(app.hex_offset <= app.hex_cursor);
    }
}

#[test]
fn keys_move_the_byte_cursor() {
    let mut app = byte_viewer(0x103, 0x500, 2);
    for (key, cursor, offset) in [
        (Key::Left, 0x103, 0x103),
        (Key::Right, 0x104, 0x103),
        (Key::Down, 0x114, 0x103),
        (Key::Char('j'), 0x124, 0x110),
        (Key::Char('k'), 0x114, 0x110),
        (Key::Up, 0x104, 0x100),
        (Key::Up, 0x103, 0x100),
        (Key::PageDown, 0x123, 0x120),
        (Key::PageUp, 0x103, 0x100),
        (Key::End, 0x4ff, 0x4e0),
        (Key::Right, 0x4ff, 0x4e0),
        (Key::PageDown, 0x4ff, 0x4f0),
        (Key::Home, 0x103, 0x100),
        (Key::Other, 0x103, 0x100),
    ] {
        assert_eq!(app.handle_key(key), Step::Continue);
        assert_eq!((app.hex_cursor, app.hex_offset), (cursor, offset), "{key:?}");
    }
    for key in [Key::Esc, Key::Char('q'), Key::Char('Q')] {
        assert_eq!(app.handle_key(key), Step::Quit);
    }
}

#[test]
fn the_byte_view_goes_to_an_offset_in_the_range() {
    let mut app = byte_viewer(0x100, 0x500, 20);
    for (s, cursor) in [("0x2_34", 0x234), ("1", 0x100), ("0xFFFF", 0x4ff), ("junk", 0x4ff), (" 768 ", 768)] {
        app.handle_key(Key::Char('g'));
        typed(&mut app, s);
        assert!(app.accepts_key(Key::Enter));
        app.handle_key(Key::Enter);
        assert_eq!((app.hex_cursor, app.goto_input), (cursor, false), "{s}");
        assert_eq!(app.hex_offset, cursor & !0xF);
    }
}

#[test]
fn an_empty_range_has_nowhere_to_go_to() {
    let mut app = byte_viewer(0x100, 0x100, 20);
    app.handle_key(Key::Char('g'));
    assert!(app.accepts_key(Key::Enter));
    typed(&mut app, "5");
    assert!(!app.accepts_key(Key::Enter));
    assert!(app.accepts_key(Key::Esc));
    assert!(viewer(0, 1).accepts_key(Key::Enter));
}

#[test]
fn results_arrive_in_batches() {
    let mut app = viewer(0, 10);
    app.receive(vec![result(20, "cccc"), result(0, "aaaa")]);
    app.receive(Vec::new());
    app.receive(vec![result(10, "bbbb"), result(22, "cc"), result(10, "dup")]);
    let shown: Vec<(u64, &str)> = app.results.iter().map(|r| (r.offset, r.text.as_str())).collect();
    assert_eq!(shown, vec![(0, "aaaa"), (10, "bbbb"), (20, "cccc")]);
    assert!(takes_more(0) && takes_more(500) && !takes_more(501));
}

#[test]
fn an_empty_batch_leaves_the_list_alone() {
    let mut app = viewer(0, 10);
    app.results = vec![result(9, "b"), result(1, "a")];
    app.receive(Vec::new());
    assert_eq!(app.results[0].offset, 9);
}

#[test]
fn the_end_of_the_scan_is_settled() {
    let mut app = viewer(0, 10);
    app.total_regions = 3;
    assert!(!app.expects_end(2));
    assert!(app.expects_end(3));
    app.settle(0, None);
    assert!(!app.scanning_done);
    app.settle(4, Some(Poll::Empty));
    assert!(!app.scanning_done);
    app.settle(0, Some(Poll::Item(result(3, "late"))));
    app.settle(0, Some(Poll::Item(result(1, "later"))));
    let offsets: Vec<u64> = app.results.iter().map(|r| r.offset).collect();
    assert_eq!((app.scanning_done, offsets), (false, vec![1, 3]));
    app.settle(0, Some(Poll::Empty));
    assert!(app.scanning_done);
    app.settle(1, None);
    assert!(app.scanning_done);

    let mut closed = viewer(0, 10);
    closed.total_regions = 1;
    closed.settle(4, Some(Poll::Closed));
    assert!(closed.scanning_done);

    let mut nothing = viewer(0, 10);
    assert!(!nothing.expects_end(0));
    nothing.settle(0, None);
    assert!(nothing.scanning_done);
}

#[test]
fn settings_are_checked() {
    assert_eq!(args().validate(), Ok(()));
    let zero = "chunk, region, and min-string must be greater than zero".to_string();
    assert_eq!(Args { chunk: 0, ..args() }.validate(), Err(zero.clone()));
    assert_eq!(Args { region: 0, ..args() }.validate(), Err(zero.clone()));
    assert_eq!(Args { min_string: 0, page_size: 0, ..args() }.validate(), Err(zero));
    assert_eq!(
        Args { page_size: 0, ..args() }.validate(),
        Err("page-size must be greater than zero".to_string())
    );
    assert_eq!(
        Args { strings_only: true, hex_only: true, ..args() }.validate(),
        Err("--strings-only and --hex-only cannot be used together".to_string())
    );
    assert_eq!((DEFAULT_CHUNK, DEFAULT_REGION, MIN_STRING, OVERLAP), (4096, 64 * 1024 * 1024, 4, 4096));
}

#[test]
fn the_range_is_held_against_the_file() {
    assert_eq!(args().range_in(100), (0, 100));
    assert_eq!(Args { start_offset: Some(10), ..args() }.range_in(100), (10, 100));
    assert_eq!(Args { end_offset: Some(10), ..args() }.range_in(100), (0, 10));
    assert_eq!(Args { start_offset: Some(500), end_offset: Some(700), ..args() }.range_in(100), (100, 100));
    assert_eq!(Args { start_offset: Some(50), end_offset: Some(20), ..args() }.range_in(100), (50, 50));
    let range = Args { range: Some(vec![0x28100, 0x28350]), start_offset: Some(1), ..args() };
    assert_eq!(range.range_in(1_000_000), (164096, 164688));
    assert_eq!(range.clone().range_in(164100), (164096, 164100));
    assert_eq!(Args { chunk: 100, region: 7, ..args() }.region_size(), 100);
    assert_eq!(args().region_size(), DEFAULT_REGION);
}

#[test]
fn the_viewer_opens_on_the_range() {
    let job = FileJob { path: PathBuf::from("f"), size: 1000 };
    let text = open_viewer(&job, &Args { chunk: 16, region: 64, json: true, threads: 3, ..args() });
    assert_eq!((text.range_start, text.range_end, text.total_regions), (0, 1000, 16));
    assert_eq!((text.json_filter, text.threads, text.page_size), (true, 3, 50));
    assert!(!text.raw_hex_mode && !text.scanning_done);
    let bytes = open_viewer(
        &job.clone(),
        &Args { hex_only: true, start_offset: Some(37), end_offset: Some(90), ..args() },
    );
    assert_eq!((bytes.hex_offset, bytes.hex_cursor, bytes.range_end), (37, 37, 90));
    assert!(bytes.raw_hex_mode && bytes.scanning_done);
    assert_eq!(open_viewer(&FileJob { path: PathBuf::from("e"), size: 0 }, &args()).total_regions, 0);
}

#[test]
fn files_are_taken_and_directories_entered() {
    assert_eq!(visit_input(EntryKind::File), Visit::Take);
    assert_eq!(visit_input(EntryKind::Directory), Visit::Enter);
    assert_eq!(visit_input(EntryKind::Other), Visit::Pass);
    assert_eq!(visit_entry(EntryKind::File, false), Visit::Take);
    assert_eq!(visit_entry(EntryKind::Directory, true), Visit::Enter);
    assert_eq!(visit_entry(EntryKind::Directory, false), Visit::Pass);
    assert_eq!(visit_entry(EntryKind::Other, true), Visit::Pass);
}
