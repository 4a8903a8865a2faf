use hextatui::hex_view::{
    better_reading, context_window, draw_hex_view, has_context, read_hex_context, reads_again, HexLine,
};
use hextatui::layout::{body_rows, inspection_areas, inspection_plan, screen_areas, screen_plan, Area};
use hextatui::raw_hex::{draw_raw_hex, Tint};
use hextatui::result::{Encoding, ScanResult};
use hextatui::screen::{draw_ui, Pane, BAR_CELLS};
use hextatui::table::draw_table;
use hextatui::tui::InteractiveApp;
use std::path::PathBuf;

fn viewer(n: u64, page_size: usize) -> InteractiveApp {
    let mut app = InteractiveApp::new(PathBuf::from("file.bin"), 0, page_size);
    for i in 0..n {
        let text = format!("text {i}");
        app.results.push(ScanResult {
            offset: i * 1000,
            length: text.len(),
            encoding: Encoding::Ascii,
            text,
        });
    }
    app
}

#[test]
fn the_screen_is_divided_as_planned() {
    let plan = screen_plan();
    assert_eq!((plan.above, plan.middle, plan.below), (vec![3, 1], 5, vec![3]));
    let s = screen_areas(Area { x: 2, y: 1, width: 80, height: 24 });
    assert_eq!(s.header, Area { x: 2, y: 1, width: 80, height: 3 });
    assert_eq!(s.progress, Area { x: 2, y: 4, width: 80, height: 1 });
    assert_eq!(s.body, Area { x: 2, y: 5, width: 80, height: 17 });
    assert_eq!(s.footer, Area { x: 2, y: 22, width: 80, height: 3 });
}

#[test]
fn the_view_of_a_string_is_divided_as_planned() {
    let plan = inspection_plan();
    assert_eq!((plan.above, plan.middle, plan.below), (vec![6], 5, vec![2]));
    let s = inspection_areas(Area { x: 0, y: 4, width: 100, height: 30 });
    assert_eq!(s.info, Area { x: 0, y: 4, width: 100, height: 6 });
    assert_eq!(s.bytes, Area { x: 0, y: 10, width: 100, height: 22 });
    assert_eq!(s.help, Area { x: 0, y: 32, width: 100, height: 2 });
}

#[test]
fn screens_with_room_are_divided_as_planned() {
    for y in [0, 3] {
        for height in 12..400 {
            let s = screen_areas(Area { x: 1, y, width: 9, height });
            let rows: Vec<(u16, u16)> =
                [s.header, s.progress, s.body, s.footer].iter().map(|a| (a.y, a.height)).collect();
            assert_eq!(rows, vec![(y, 3), (y + 3, 1), (y + 4, height - 7), (y + height - 3, 3)]);
        }
        for height in 13..400 {
            let s = inspection_areas(Area { x: 1, y, width: 9, height });
            let rows: Vec<(u16, u16)> =
                [s.info, s.bytes, s.help].iter().map(|a| (a.y, a.height)).collect();
            assert_eq!(rows, vec![(y, 6), (y + 6, height - 8), (y + height - 2, 2)]);
        }
    }
    let tall = screen_areas(Area { x: 0, y: 0, width: 9, height: u16::MAX });
    assert_eq!(tall.body, Area { x: 0, y: 4, width: 9, height: u16::MAX - 7 });
}

#[test]
fn small_screens_are_divided_somehow() {
    for height in 0..14 {
        let s = screen_areas(Area { x: 7, y: 0, width: 9, height });
        for part in [s.header, s.progress, s.body, s.footer] {
            assert_eq!((part.x, part.width), (7, 9));
        }
    }
}

#[test]
fn a_body_has_at_least_one_row() {
    assert_eq!(body_rows(0), 1);
    assert_eq!(body_rows(5), 1);
    assert_eq!(body_rows(6), 2);
    assert_eq!(body_rows(24), 20);
}

#[test]
fn the_screen_says_what_is_found() {
    let mut app = viewer(12, 5);
    app.threads = 4;
    app.range_end = 20000;
    app.total_regions = 2;
    let s = draw_ui(&app, "file.bin", 20000, "0.02", 10, " 50.0");
    assert_eq!(s.title, " file.bin  20,000 bytes (0.02 MB)  Threads: 4 ");
    assert_eq!(s.found, " Found: 12  Filter: none ");
    assert_eq!(s.progress, " Scan: ██████████░░░░░░░░░░  50.0%  Found: 12 ");
    assert_eq!(
        s.footer,
        " Page 1/3  Selected: #1  [→] Next  [←] Prev  [↑↓] Select  [Enter] Inspect  [F] Filter  [G] Goto  [H] Hex  [Q] Quit "
    );
    assert_eq!(s.pane, Pane::List);
    assert_eq!(BAR_CELLS, 20);
}

#[test]
fn the_screen_says_what_is_filtered() {
    let mut app = viewer(12, 5);
    app.filter = "1".to_string();
    app.json_filter = true;
    app.range_start = 0x10;
    app.range_end = 0x200;
    app.scanning_done = true;
    app.hex_view = true;
    app.selected = 2;
    let s = draw_ui(&app, "f", 0x400, "0.00", 0, "");
    assert_eq!(s.title, " f  1,024 bytes (0.00 MB)  Threads: auto ");
    assert_eq!(s.found, " Found: 12  Filter: \"1\" (3 matches) JSON:on Range: 0x00000010..0x00000200 ");
    assert_eq!(s.progress, " Scan: done  Progress: 100%  Found: 12 ");
    assert_eq!(s.pane, Pane::Inspection);
    assert!(s.footer.starts_with(" Page 1/1  Selected: #3 "));
    app.filter = "none of them".to_string();
    assert!(draw_ui(&app, "f", 0, "", 0, "").footer.starts_with(" Page 1/1  Selected: #0 "));
}

#[test]
fn the_screen_says_which_filter_is_set() {
    let mut app = viewer(12, 5);
    app.filter = "1".to_string();
    app.filter_input = true;
    app.goto_buf = "11".to_string();
    let s = draw_ui(&app, "f", 0, "", 0, "");
    assert_eq!(s.found, " Found: 12  Filter: \"1\" (3 matches) ");
}

#[test]
fn numbers_of_pages_and_rows_may_be_large() {
    let mut app = viewer(0, 1);
    app.selected = usize::MAX;
    assert!(draw_ui(&app, "", 0, "", 0, "").footer.starts_with(" Page 1/1  Selected: #0 "));
    assert_eq!(draw_table(&mut app, 10, 0).title, " Results  Page 1/1 ");
    let mut full = viewer(2, 1);
    full.selected = usize::MAX;
    let beyond = usize::MAX as u128 + 1;
    let start = format!(" Page {beyond}/2  Selected: #{beyond} ");
    assert!(draw_ui(&full, "", 0, "", 0, "").footer.starts_with(&start));
    full.scanning_done = true;
    assert_eq!(draw_ui(&full, "", 0, "", 99, "").progress, " Scan: done  Progress: 100%  Found: 2 ");
}

#[test]
fn the_footer_says_what_is_typed() {
    let mut app = viewer(0, 5);
    app.goto_buf = "0x1".to_string();
    app.goto_input = true;
    assert_eq!(draw_ui(&app, "", 0, "", 0, "").footer, " Goto (page # or 0x offset): 0x1█ ");
    app.goto_input = false;
    app.filter_input = true;
    assert_eq!(
        draw_ui(&app, "", 0, "", 0, "").footer,
        " Filter: 0x1█  (Enter to apply, Esc to cancel)"
    );
    app.filter_input = false;
    app.raw_hex_mode = true;
    app.hex_offset = 0x20;
    app.hex_cursor = 0x2b;
    app.range_end = 0x80;
    let s = draw_ui(&app, "", 0x80, "", 0, "");
    assert_eq!(
        s.footer,
        " Offset: 0x00000020  Cursor: 0x0000002B  Range: 0x00000000..0x00000080  [↑↓] Row  [←→] Byte  [PgUp/PgDn] Page  [G] Goto  [Q] Quit "
    );
    assert_eq!(s.pane, Pane::Bytes);
    assert_eq!(s.found, " Found: 0  Filter: none ");
}

#[test]
fn a_table_shows_the_selected_row() {
    let mut app = viewer(40, 50);
    app.selected = 25;
    let t = draw_table(&mut app, 14, 2_000_000);
    assert_eq!(app.scroll_offset, 16);
    assert_eq!(t.title, " Results  Page 1/1 ");
    assert_eq!(t.showing, " Showing 17-26 of 40 ");
    assert_eq!(t.rows.len(), 10);
    let row = &t.rows[9];
    assert_eq!(
        (row.number.as_str(), row.offset.as_str(), row.decimal.as_str(), row.position.as_str()),
        ("26", "0x000061A8", "25,000", "25,000/2,000,000")
    );
    assert_eq!(
        (row.length.as_str(), row.encoding.as_str(), row.text.as_str(), row.at),
        ("7", "ASCII", "text 25", 25000)
    );
    assert!(row.selected);
    assert_eq!(t.rows.iter().filter(|r| r.selected).count(), 1);
}

#[test]
fn a_table_leaves_no_row_empty() {
    let mut app = viewer(8, 5);
    app.scroll_offset = 6;
    app.selected = 7;
    let t = draw_table(&mut app, 100, 0);
    assert_eq!((app.scroll_offset, t.rows.len()), (3, 5));
    assert_eq!(t.title, " Results  Page 2/2 ");
    let mut empty = viewer(0, 5);
    empty.scroll_offset = 9;
    let none = draw_table(&mut empty, 100, 0);
    assert_eq!((empty.scroll_offset, none.rows.len()), (0, 0));
    assert_eq!(none.showing, " Showing 0-0 of 0 ");
}

#[test]
fn a_table_shows_filtered_rows_only() {
    let mut app = viewer(30, 50);
    app.filter = "TEXT 2".to_string();
    app.selected = 1;
    let t = draw_table(&mut app, 7, 0);
    let texts: Vec<&str> = t.rows.iter().map(|r| r.text.as_str()).collect();
    assert_eq!(texts, vec!["text 2", "text 20", "text 21"]);
    assert_eq!(t.showing, " Showing 1-3 of 11 ");
    assert!(t.rows[1].selected);
}

#[test]
fn the_context_of_a_string_is_a_window_of_the_file() {
    assert_eq!(context_window(1000, 100, 64, 64), (32, 164));
    assert_eq!(context_window(110, 100, 64, 64), (32, 78));
    assert_eq!(context_window(1000, 10, 64, 64), (0, 106));
    assert!(has_context(1000, 100, 64, 64));
    assert!(!has_context(10, 100, 64, 64));
    assert_eq!(context_window(u64::MAX, u64::MAX - 1, 64, 64), (u64::MAX - 79, 79));
    let data: Vec<u8> = (0..=255).collect();
    let (start, bytes) = read_hex_context(&data, 100, 64, 64);
    assert_eq!((start, bytes), (32, data[32..196].to_vec()));
}

#[test]
fn a_reading_of_zeros_gives_way_to_a_second_one() {
    assert!(reads_again(&vec![0, 0]));
    assert!(reads_again(&Vec::new()));
    assert!(!reads_again(&vec![0, 1]));
    assert_eq!(better_reading(vec![0, 0], vec![7]), vec![7]);
    assert_eq!(better_reading(vec![0, 0], Vec::new()), vec![0, 0]);
    assert_eq!(better_reading(vec![0, 3], vec![7]), vec![0, 3]);
}

#[test]
fn a_string_is_shown_with_its_bytes() {
    let mut app = viewer(0, 5);
    app.results.push(ScanResult {
        offset: 0x13,
        length: 5,
        encoding: Encoding::Ascii,
        text: "hello".to_string(),
    });
    let mut data = vec![0u8; 0x28];
    data[0x13..0x18].copy_from_slice(b"hello");
    let v = draw_hex_view(&app, 0, &data, 2048, "0.93").unwrap();
    assert_eq!(v.text, "hello");
    assert_eq!(v.place, " Offset: 0x00000013  Decimal: 19  Position: 0.93%  19/2,048");
    assert_eq!(v.size, " Length: 5 bytes  Encoding: ASCII ");
    assert_eq!(v.heading, format!("{:12}  {:48}  ASCII", "Offset", "HEX"));
    let mut marks = 0;
    let mut texts = Vec::new();
    for line in &v.lines {
        match line {
            HexLine::Bytes { address, hex, ascii, of_string, marker } => {
                assert_eq!(*of_string, marker == " →");
                assert_eq!(hex.chars().count(), 48);
                texts.push((format!("{address}{hex}"), ascii.clone()));
            },
            HexLine::Caret(s) => {
                marks += 1;
                assert_eq!(*s, format!("{}^  string starts 0x00000013", " ".repeat(21)));
                assert_eq!(texts.last().unwrap().0.chars().nth(21), Some('8'));
            },
        }
    }
    assert_eq!(marks, 1);
    assert_eq!(texts.len(), 3);
    assert_eq!(
        texts[1],
        (
            "0x00000010 00 00 00 68 65 6C 6C 6F 00 00 00 00 00 00 00 00 ".to_string(),
            "...hello........".to_string()
        )
    );
    assert_eq!(texts[2].1, "........");
    assert!(draw_hex_view(&viewer(0, 5), 0, &data, 2048, "").is_none());
}

#[test]
fn bytes_are_shown_in_lines() {
    let mut app = viewer(0, 5);
    app.raw_hex_mode = true;
    app.range_start = 3;
    app.range_end = 40;
    app.hex_offset = 19;
    app.hex_cursor = 27;
    assert_eq!(app.byte_window(24), (16, 24));
    assert_eq!(app.byte_window(5), (16, 16));
    let bytes: Vec<u8> = (0x38..0x50).collect();
    let v = draw_raw_hex(&app, 24, &bytes);
    assert_eq!(v.title, " Hex Dump  0x00000003..0x00000028  Cursor: 0x0000001B ");
    assert_eq!(v.help, " 20 rows  [G] Goto  [Q] Quit ");
    assert_eq!(v.rows.len(), 2);
    let first = &v.rows[0];
    let hex: String = first.hex.iter().map(|t| t.text.as_str()).collect();
    let ascii: String = first.ascii.iter().map(|t| t.text.as_str()).collect();
    assert_eq!(first.address, "0x00000010");
    assert_eq!(hex, "38 39 3A 3B 3C 3D 3E 3F  40 41 42 43 44 45 46 47 ");
    assert_eq!(ascii, "89:;<=>?@ABCDEFG");
    assert!(first.cursor_line);
    assert_eq!(first.hex[0].tint, Tint::Line);
    assert_eq!(first.hex[8].tint, Tint::Plain);
    assert_eq!((first.hex[12].tint, first.hex[12].text.as_str()), (Tint::Cursor, "43 "));
    assert_eq!((first.ascii[11].tint, first.ascii[10].tint), (Tint::Cursor, Tint::Printable));
    let second = &v.rows[1];
    assert!(!second.cursor_line);
    assert_eq!(second.hex.len(), 16);
    assert_eq!(second.hex[7].tint, Tint::Plain);
    assert_eq!(second.hex[8].text, "   ");
    assert_eq!(second.ascii[15].text, " ");
}

#[test]
fn bytes_that_are_not_printable_are_dots() {
    let mut app = viewer(0, 5);
    app.hex_cursor = 99;
    let v = draw_raw_hex(&app, 10, &vec![0, b'a', 0xff]);
    let tints: Vec<Tint> = v.rows[0].ascii[..3].iter().map(|t| t.tint).collect();
    assert_eq!(tints, vec![Tint::Dot, Tint::Printable, Tint::Dot]);
    assert_eq!(v.rows[0].ascii[0].text, ".");
    assert_eq!(v.rows[0].hex[2].text, "FF ");
}

#[test]
fn no_bytes_are_said_to_be_none() {
    let app = viewer(0, 5);
    assert_eq!(app.byte_window(24), (0, 0));
    let v = draw_raw_hex(&app, 24, &Vec::new());
    assert_eq!(v.rows.len(), 1);
    assert_eq!(v.rows[0].hex[0].text, "No data in range");
    assert_eq!((v.rows[0].address.as_str(), v.rows[0].ascii.len()), ("", 0));
}
