use hextatui::dump::format_dump_line;
use hextatui::extract::{extract_strings_simple, extract_strings_simple_suppress, is_printable, text_from, Carry};
use hextatui::merge::{drop_covered, merge_results, scan_file, RegionOutcome};
use hextatui::region::{extract_strings_with_results, keep_owned, plan_region, Piece, Region, RegionScanner, ScanOptions};
use hextatui::report::{format_farewell, format_heading, format_piece, format_string_line, format_written};
use hextatui::result::{write_results_table, Encoding, ScanResult};
use hextatui::scanner::{scan_region_strings, scan_region_with_results};
use hextatui::sort::stable_sort;
use hextatui::whole::{region_count, region_starts};

fn result(offset: u64, text: &str) -> ScanResult {
    ScanResult { offset, length: text.len(), encoding: Encoding::Ascii, text: text.to_string() }
}

fn told(v: &[ScanResult]) -> Vec<(u64, usize, String)> {
    v.iter().map(|r| (r.offset, r.length, r.text.clone())).collect()
}

fn places(v: &[ScanResult]) -> Vec<(u64, String)> {
    v.iter().map(|r| (r.offset, r.text.clone())).collect()
}

/// The stretches of printable bytes that are long enough, found in the plainest way.
fn stretches(data: &[u8], min: usize) -> Vec<(u64, String)> {
    let mut found = Vec::new();
    let mut i = 0;
    while i < data.len() {
        let mut j = i;
        while j < data.len() && (0x20..0x7f).contains(&data[j]) {
            j += 1;
        }
        if j > i && j - i >= min {
            found.push((i as u64, String::from_utf8(data[i..j].to_vec()).unwrap()));
        }
        i = j + 1;
    }
    found
}

fn noise(n: usize) -> Vec<u8> {
    let mut x: u32 = 12345;
    (0..n)
        .map(|_| {
            x = x.wrapping_mul(1664525).wrapping_add(1013904223);
            (x >> 24) as u8 & 0x7f
        })
        .collect()
}

fn outcomes(data: &[u8], region: u64, chunk: usize, min: usize) -> Vec<RegionOutcome> {
    let size = data.len() as u64;
    region_starts(0, size, region)
        .into_iter()
        .map(|start| {
            let (output, results) =
                scan_region_with_results(data, start, region, size, chunk, false, false, min, 4096, false);
            RegionOutcome::Done { start, output, results }
        })
        .collect()
}

#[test]
fn printable_bytes_are_the_graphic_ones_and_the_space() {
    for b in 0..=255u8 {
        assert_eq!(is_printable(b), b.is_ascii_graphic() || b == b' ');
    }
    assert_eq!(text_from(&b"a b~".to_vec()), "a b~");
}

#[test]
fn a_region_reports_its_strings_and_bytes() {
    let data = b"\x00abcd\x01xy\x00";
    let (output, results) =
        scan_region_with_results(data, 0, 100, 9, 4096, false, false, 4, 4096, false);
    assert_eq!(told(&results), vec![(1, 4, "abcd".to_string())]);
    let printed: String = output.iter().map(|p| format_piece(p, 9, "11.11")).collect();
    assert_eq!(
        printed,
        "\n0x0000000000000000  00 61 62 63 64 01 78 79 00  | .abcd.xy.\n\
         [STRING 0x00000001 dec=1 pos=1/9 (11.11%) len=4] abcd\n"
    );
}

#[test]
fn reports_hold_what_is_asked_for() {
    let data = b"hello\x00world";
    let (strings, found) =
        scan_region_with_results(data, 0, 100, 11, 4, true, false, 4, 4096, false);
    assert!(strings.iter().all(|p| matches!(p, Piece::Hit(_))));
    assert_eq!(strings.len(), 2);
    assert_eq!(places(&found), vec![(0, "hello".to_string()), (6, "world".to_string())]);
    let (bytes, none) = scan_region_with_results(data, 0, 100, 11, 4, false, true, 4, 4096, false);
    let printed: String = bytes.iter().map(|p| format_piece(p, 11, "")).collect();
    assert_eq!(
        printed,
        "0x0000000000000000  68 65 6C 6C  | hell\n\
         0x0000000000000004  6F 00 77 6F  | o.wo\n\
         0x0000000000000008  72 6C 64  | rld\n"
    );
    assert!(none.is_empty());
}

#[test]
fn a_string_across_a_border_belongs_to_the_region_it_begins_in() {
    let data = b"\x00\x00abcdefgh\x00ij";
    let size = data.len() as u64;
    let first = scan_region_strings(data, 0, 6, size, 4096, 4, 4096, false);
    let second = scan_region_strings(data, 6, 6, size, 4096, 4, 4096, false);
    assert_eq!(told(&first), vec![(2, 8, "abcdefgh".to_string())]);
    assert!(second.is_empty());
}

#[test]
fn a_string_is_cut_where_the_overlap_ends() {
    let data = b"abcdefghij";
    let cut = scan_region_strings(data, 0, 4, 10, 4096, 4, 2, false);
    assert_eq!(told(&cut), vec![(0, 6, "abcdef".to_string())]);
}

#[test]
fn short_tails_do_not_hide_later_strings() {
    let data = b"ab\x00abcd\x00";
    let found = scan_region_strings(data, 1, 100, 8, 4096, 4, 4096, false);
    assert_eq!(places(&found), vec![(3, "abcd".to_string())]);
}

#[test]
fn both_scans_find_all_stretches_whatever_the_sizes() {
    let data = noise(3000);
    let want = stretches(&data, 4);
    assert!(want.len() > 20);
    for region in [7, 64, 1000, 5000] {
        for chunk in [1, 5, 16, 4096] {
            let scan = scan_file(outcomes(&data, region, chunk, 4));
            assert_eq!(places(&scan.results.unwrap()), want);
            let mut all = Vec::new();
            for start in region_starts(0, 3000, region) {
                all.extend(scan_region_strings(&data, start, region, 3000, chunk, 4, 4096, false));
            }
            assert_eq!(places(&merge_results(all)), want);
        }
    }
}

#[test]
fn the_report_lists_the_strings_that_are_returned() {
    let data = noise(500);
    for start in region_starts(0, 500, 128) {
        let (output, results) =
            scan_region_with_results(&data, start, 128, 500, 32, false, false, 3, 4096, false);
        let hits: Vec<(u64, String)> = output
            .iter()
            .filter_map(|p| match p {
                Piece::Hit(r) => Some((r.offset, r.text.clone())),
                Piece::Dump(_) => None,
            })
            .collect();
        assert_eq!(hits, places(&results));
        let dumps = output.iter().filter(|p| matches!(p, Piece::Dump(_))).count();
        assert_eq!(dumps as u64, ((500 - start).min(128) + 31) / 32);
    }
}

#[test]
fn reads_may_be_cut_anywhere() {
    let data = b"\x01first\x02second string\x03";
    let size = data.len() as u64;
    let region = plan_region(0, 100, size, 4096);
    assert_eq!(region, Region { start: 0, end: size, string_end: size });
    let options =
        ScanOptions { chunk_size: 64, strings_only: false, hex_only: false, min_string: 4, json: false };
    for cut in 1..data.len() {
        let mut scanner = RegionScanner::new(region, options, false, None);
        assert_eq!(scanner.wanted(), data.len());
        scanner.feed(&data[..cut]);
        assert_eq!(scanner.position(), cut as u64);
        scanner.feed(&data[cut..]);
        assert_eq!(scanner.wanted(), 0);
        let (_, results) = scanner.finish();
        assert_eq!(
            places(&results),
            vec![(1, "first".to_string()), (7, "second string".to_string())]
        );
    }
}

#[test]
fn a_scan_may_tell_all_strings_it_met() {
    let data = b"\x00mine\x00other\x00";
    let region = plan_region(0, 4, data.len() as u64, 4096);
    let options =
        ScanOptions { chunk_size: 64, strings_only: true, hex_only: false, min_string: 4, json: false };
    let mut scanner = RegionScanner::new(region, options, true, None);
    while scanner.wanted() > 0 {
        let from = scanner.position() as usize;
        let to = from + scanner.wanted();
        scanner.feed(&data[from..to]);
    }
    let (output, met) = scanner.close();
    assert_eq!(places(&met), vec![(1, "mine".to_string()), (6, "other".to_string())]);
    assert_eq!(output.len(), 1);
    assert_eq!(places(&keep_owned(met, region, false)), vec![(1, "mine".to_string())]);
}

#[test]
fn only_structures_are_kept_if_asked_for() {
    let data = b"\x00{\"a\": [1]}\x00plain text\x00[1,]\x00[2,3]";
    let size = data.len() as u64;
    let found = scan_region_strings(data, 0, 100, size, 4096, 4, 4096, true);
    assert_eq!(
        places(&found),
        vec![(1, "{\"a\": [1]}".to_string()), (size - 5, "[2,3]".to_string())]
    );
    let (output, same) =
        scan_region_with_results(data, 0, 100, size, 4096, true, false, 4, 4096, true);
    assert_eq!(places(&same), places(&found));
    assert_eq!(output.len(), 2);
}

#[test]
fn regions_are_planned_inside_the_file() {
    assert_eq!(plan_region(10, 20, 25, 4), Region { start: 10, end: 25, string_end: 25 });
    assert_eq!(plan_region(10, 5, 25, 4), Region { start: 10, end: 15, string_end: 19 });
    assert_eq!(
        plan_region(u64::MAX - 1, 5, u64::MAX, 4096),
        Region { start: u64::MAX - 1, end: u64::MAX, string_end: u64::MAX }
    );
    assert_eq!(region_starts(0, 10, 4), vec![0, 4, 8]);
    assert_eq!(region_starts(3, 11, 4), vec![3, 7]);
    assert!(region_starts(5, 5, 4).is_empty());
    assert_eq!(region_starts(u64::MAX - 3, u64::MAX, 2), vec![u64::MAX - 3, u64::MAX - 1]);
    assert_eq!(region_count(10, 4), 3);
    assert_eq!(region_count(8, 4), 2);
    assert_eq!(region_count(0, 4), 0);
    assert_eq!(region_count(u64::MAX, 1), u64::MAX);
}

#[test]
fn strings_are_extracted_over_several_reads() {
    let mut carry = Carry { bytes: Vec::new(), start: 0, suppress: true };
    let mut results = Vec::new();
    extract_strings_simple_suppress(b"tail\x00he", 100, &mut carry, 4, &mut results, 100);
    assert!(results.is_empty());
    assert_eq!((carry.bytes.clone(), carry.start, carry.suppress), (b"he".to_vec(), 105, false));
    extract_strings_simple_suppress(b"llo\x00", 107, &mut carry, 4, &mut results, 100);
    assert_eq!(told(&results), vec![(105, 5, "hello".to_string())]);
    assert!(carry.bytes.is_empty());

    let mut bytes = b"he".to_vec();
    let mut start = 105;
    let mut plain = Vec::new();
    extract_strings_simple(b"llo\x00abc\x00rest", 107, &mut bytes, &mut start, 4, &mut plain);
    assert_eq!(told(&plain), vec![(105, 5, "hello".to_string())]);
    assert_eq!((bytes, start), (b"rest".to_vec(), 115));
}

#[test]
fn suppression_drops_only_the_first_string() {
    for bytes in [&b"tail\x00next\x00"[..], b"ta\x00next", b"all of it", b"tail\x00"] {
        let mut kept = Vec::new();
        let mut rest = Vec::new();
        let mut start = 0;
        extract_strings_simple(bytes, 50, &mut rest, &mut start, 4, &mut kept);
        for suppress in [true, false] {
            let mut carry = Carry { bytes: Vec::new(), start: 0, suppress };
            let mut found = Vec::new();
            extract_strings_simple_suppress(bytes, 50, &mut carry, 4, &mut found, 50);
            assert_eq!((carry.bytes.clone(), carry.start), (rest.clone(), start));
            let want: Vec<(u64, String)> =
                places(&kept).into_iter().filter(|r| !suppress || r.0 != 50).collect();
            assert_eq!(places(&found), want);
            assert_eq!(carry.suppress, suppress && bytes.iter().all(|b| is_printable(*b)));
        }
    }
}

#[test]
fn a_report_is_beside_the_scan() {
    let bytes = b"one string\x00other one\x00rest";
    let region = Region { start: 0, end: 11, string_end: 100 };
    let mut carry = Carry { bytes: Vec::new(), start: 0, suppress: false };
    let mut same = Carry { bytes: Vec::new(), start: 0, suppress: false };
    let (mut output, mut results, mut plain) = (Vec::new(), Vec::new(), Vec::new());
    extract_strings_with_results(bytes, 0, &mut carry, 4, &mut output, &mut results, region, false);
    extract_strings_simple_suppress(bytes, 0, &mut same, 4, &mut plain, 0);
    assert_eq!(told(&results), told(&plain));
    assert_eq!((carry.bytes, carry.start, carry.suppress), (same.bytes, same.start, same.suppress));
    let lines: Vec<String> = output.iter().map(|p| format_piece(p, 26, "0.00")).collect();
    assert_eq!(lines, vec!["[STRING 0x00000000 dec=0 pos=0/26 (0.00%) len=10] one string\n"]);
}

#[test]
fn merging_sorts_and_drops_what_is_covered() {
    let all = vec![result(30, "late"), result(0, "longer one"), result(4, "inner"), result(0, "dup"), result(10, "next")];
    let merged = merge_results(all);
    assert_eq!(
        places(&merged),
        vec![(0, "longer one".to_string()), (10, "next".to_string()), (30, "late".to_string())]
    );
    let again = merge_results(merged.clone());
    assert_eq!(places(&again), places(&merged));
    let kept = drop_covered(vec![result(5, "abcd"), result(8, "d"), result(9, "e")]);
    assert_eq!(places(&kept), vec![(5, "abcd".to_string()), (9, "e".to_string())]);
}

#[test]
fn arrival_in_batches_gives_the_same_list() {
    let all = vec![result(0, "abcd"), result(10, "efgh"), result(20, "ijkl"), result(30, "mnop")];
    let at_once = merge_results(vec![all[2].clone(), all[0].clone(), all[3].clone(), all[1].clone()]);
    let mut shown = merge_results(vec![all[3].clone(), all[1].clone()]);
    shown.push(all[2].clone());
    shown.push(all[0].clone());
    assert_eq!(places(&merge_results(shown)), places(&at_once));
    assert_eq!(places(&at_once), places(&all));
}

#[test]
fn sorting_is_stable() {
    let v = vec![result(5, "a"), result(1, "b"), result(5, "c"), result(1, "d"), result(3, "e")];
    let mut want = v.clone();
    want.sort_by_key(|r| r.offset);
    assert_eq!(places(&stable_sort(v)), places(&want));
    let empty: Vec<ScanResult> = Vec::new();
    assert!(stable_sort(empty).is_empty());
}

#[test]
fn a_failed_region_fails_the_file_but_not_what_came_before() {
    let done = |start: u64, text: &str| RegionOutcome::Done {
        start,
        output: vec![Piece::Dump(text.to_string())],
        results: vec![result(start, text)],
    };
    let scan = scan_file(vec![done(8, "second"), RegionOutcome::Failed { start: 4 }, done(0, "first")]);
    let printed: Vec<String> = scan.output.iter().map(|p| format_piece(p, 0, "")).collect();
    assert_eq!(printed, vec!["first", "second"]);
    assert_eq!(scan.results.map(|v| v.len()), Err(4));
    let none = scan_file(Vec::new());
    assert_eq!(none.results.map(|v| v.len()), Ok(0));
}

#[test]
fn dump_lines_show_bytes_and_characters() {
    assert_eq!(
        format_dump_line(0x1f, b"A\x7f\xff ", false),
        "\n0x000000000000001F  41 7F FF 20  | A.. \n"
    );
    assert_eq!(format_dump_line(0x1f, b"A\x00", true), "0x000000000000001F  41 00  | A.\n");
}

#[test]
fn lines_of_a_report() {
    assert_eq!(
        format_string_line(&result(0x28107, "text"), 200000, "82.05"),
        "[STRING 0x00028107 dec=164103 pos=164103/200000 (82.05%) len=4] text\n"
    );
    let rule = "=".repeat(60);
    assert_eq!(
        format_heading("a/b.bin", 255),
        format!("\n{rule}\nFILE: a/b.bin\nSIZE: 255 bytes (0xFF)\n{rule}\n")
    );
    assert_eq!(
        format_farewell("x", 1048576, "1.0", 3),
        "\nFile: x\nSize: 1048576 bytes (1.0 MB)\nFound: 3 strings\n"
    );
    assert_eq!(format_written(2, "out.txt"), "Wrote 2 strings to out.txt");
}

#[test]
fn a_results_table_has_a_line_for_each_string() {
    let results = vec![result(0x400, "alpha"), result(1_234_567, "be ta")];
    let percents: Vec<String> = results
        .iter()
        .map(|r| format!("{:.2}", r.offset as f64 / 2_000_000f64 * 100.0))
        .collect();
    let lines = write_results_table(&results, 2_000_000, &percents);
    let want: Vec<String> = results
        .iter()
        .enumerate()
        .map(|(i, r)| {
            let pct = r.offset as f64 / 2_000_000f64 * 100.0;
            let commas = if i == 0 { "1,024" } else { "1,234,567" };
            format!(
                "{:>3} | 0x{:08X} | {:>12} | {:>12} / {:<12} | {:>6.2}% | {:>6} | ASCII | {}",
                i + 1, r.offset, commas, commas, "2,000,000", pct, r.length, r.text
            )
        })
        .collect();
    assert_eq!(lines[2..].to_vec(), want);
    assert_eq!(
        lines[0],
        "# | Offset     | Decimal      | Position              | %      | Length | Encoding | String"
    );
    assert_eq!(lines[1].chars().count(), 100);
    assert!(lines[1].starts_with("──┼────────────┼"));
    assert_eq!(write_results_table(&Vec::new(), 0, &Vec::new()).len(), 2);
}
