//! How a run begins: which files are taken, and what the viewer starts with.
use crate::bounds::larger;
use crate::cli::{range_of, Args};
use crate::keys::{begins_before_cursor, in_list, in_range};
use crate::result::{FileJob, Found};
use crate::tui::{AppView, InteractiveApp};
use crate::whole::{law_parts_hold_all, parts, region_count};
use vstd::prelude::*;

verus! {

/// What a path names.
#[derive(Debug, Clone, Copy, PartialEq, Eq, Structural)]
pub enum EntryKind {
    File,
    Directory,
    Other,
}

/// What to do with a path.
#[derive(Debug, Clone, Copy, PartialEq, Eq, Structural)]
pub enum Visit {
    /// Scan it.
    Take,
    /// Look at its entries.
    Enter,
    /// Leave it.
    Pass,
}

/// What to do with a path, given whether directories are entered.
pub open spec fn visit_of(kind: EntryKind, enters: bool) -> Visit {
    match kind {
        EntryKind::File => Visit::Take,
        EntryKind::Directory => if enters {
            Visit::Enter
        } else {
            Visit::Pass
        },
        EntryKind::Other => Visit::Pass,
    }
}

/// Law: files are scanned and nothing else is; directories are entered where that is asked for,
/// and nothing else is.
pub proof fn law_files_are_scanned(kind: EntryKind, enters: bool)
    ensures
        visit_of(kind, enters) == Visit::Take <==> kind == EntryKind::File,
        visit_of(kind, enters) == Visit::Enter <==> kind == EntryKind::Directory && enters,
{
}

/// What to do with the path that was asked for.
pub fn visit_input(kind: EntryKind) -> (v: Visit)
    ensures
        v == visit_of(kind, true),
{
    match kind {
        EntryKind::File => Visit::Take,
        EntryKind::Directory => Visit::Enter,
        EntryKind::Other => Visit::Pass,
    }
}

/// What to do with an entry of a directory.
pub fn visit_entry(kind: EntryKind, recursive: bool) -> (v: Visit)
    ensures
        v == visit_of(kind, recursive),
{
    match kind {
        EntryKind::File => Visit::Take,
        EntryKind::Directory => if recursive {
            Visit::Enter
        } else {
            Visit::Pass
        },
        EntryKind::Other => Visit::Pass,
    }
}

/// The viewer that a run begins with: empty, on the range that is asked for, and
/// with the cursor at the range's beginning if bytes are to be shown. Then nothing
/// is left to scan.
pub open spec fn opened(job: FileJob, args: Args) -> AppView {
    let (start, end) = range_of(args, job.size as int);
    let at = if args.hex_only {
        start
    } else {
        0
    };
    AppView {
        file_path: job.path,
        results: Seq::<Found>::empty(),
        filter: Seq::empty(),
        filter_input: false,
        filter_before: None,
        goto_input: false,
        goto_buf: Seq::empty(),
        hex_view: false,
        raw_hex_mode: args.hex_only,
        hex_offset: at,
        hex_cursor: at,
        selected: 0,
        scroll_offset: 0,
        total_regions: (parts(end - start, larger(args.region as int, args.chunk as int)) as u64
            as usize) as int,
        page_size: args.page_size as int,
        scanning_done: args.hex_only,
        threads: args.threads as int,
        json_filter: args.json,
        range_start: start,
        range_end: end,
    }
}

/// The viewer that a run begins with.
pub fn open_viewer(job: &FileJob, args: &Args) -> (app: InteractiveApp)
    requires
        args.region > 0 || args.chunk > 0,
    ensures
        app@ == opened(*job, *args),
{
    let (start, end) = args.range_in(job.size);
    let count: u64 = region_count(end - start, args.region_size());
    let mut app = InteractiveApp::new(job.path.clone(), job.size, args.page_size);
    app.total_regions = count as usize;
    app.threads = args.threads;
    app.json_filter = args.json;
    app.range_start = start;
    app.range_end = end;
    app.raw_hex_mode = args.hex_only;
    if args.hex_only {
        app.hex_offset = start;
        app.hex_cursor = start;
        app.scanning_done = true;
    }
    app
}

/// Law: the viewer opens with its selection in the list and its byte view not behind
/// its cursor. If bytes are shown and the range has one, the cursor is on the first.
pub proof fn law_viewer_opens_in_bounds(job: FileJob, args: Args)
    ensures
        in_list(opened(job, args)),
        begins_before_cursor(opened(job, args)),
        args.hex_only && range_of(args, job.size as int).0 < range_of(args, job.size as int).1
            ==> in_range(opened(job, args)),
{
}

/// Law: the viewer opens on the file and the range that were asked for, with the settings that
/// were asked for, nothing found, nothing typed and no filter; it counts as many regions as it
/// takes to cover the range.
pub proof fn law_viewer_opens_as_asked(job: FileJob, args: Args)
    requires
        args.region > 0 && args.chunk > 0,
    ensures
        ({
            let v = opened(job, args);
            let size = if args.region >= args.chunk {
                args.region as int
            } else {
                args.chunk as int
            };
            let len = v.range_end - v.range_start;
            &&& v.file_path == job.path
            &&& (v.range_start, v.range_end) == range_of(args, job.size as int)
            &&& v.page_size == args.page_size
            &&& v.threads == args.threads
            &&& v.json_filter == args.json
            &&& v.raw_hex_mode == args.hex_only && v.scanning_done == args.hex_only
            &&& v.results.len() == 0 && v.filter.len() == 0 && v.goto_buf.len() == 0
            &&& !v.filter_input && !v.goto_input && !v.hex_view
            &&& v.selected == 0 && v.scroll_offset == 0
            &&& args.hex_only ==> v.hex_cursor == v.range_start && v.hex_offset == v.range_start
            &&& parts(len, size) <= usize::MAX ==> v.total_regions * size >= len && (
            v.total_regions > 0 ==> (v.total_regions - 1) * size < len)
        }),
{
    let v = opened(job, args);
    let size = larger(args.region as int, args.chunk as int);
    let len = v.range_end - v.range_start;
    law_parts_hold_all(len, size);
}

} // verus!
