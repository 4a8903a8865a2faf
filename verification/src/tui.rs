//! The state of the interactive viewer.
use crate::result::{found_in, Found, ScanResult};
use crate::sort::{stable_sort, stable_sort_of};
use crate::text::{
    all_ascii, ascii_lower, chars_of, contains_chars, law_occurrence_is_letter_by_letter,
    lemma_stands, lowercase, met_at, occurs_in, to_lowercase,
};
use std::path::PathBuf;
use vstd::prelude::*;

verus! {

/// The viewer: the strings found so far and what is shown of them.
#[derive(Debug)]
pub struct InteractiveApp {
    pub file_path: PathBuf,
    pub results: Vec<ScanResult>,
    /// Only strings that contain this text are listed, in upper or lower case.
    pub filter: String,
    /// Whether the filter is being typed.
    pub filter_input: bool,
    /// The filter from before it was typed, to go back to.
    pub filter_before: Option<String>,
    /// Whether a place to go to is being typed.
    pub goto_input: bool,
    /// What is being typed.
    pub goto_buf: String,
    /// Whether the bytes around the selected string are shown.
    pub hex_view: bool,
    /// Whether the bytes of the range are shown in place of the list.
    pub raw_hex_mode: bool,
    pub hex_offset: u64,
    pub hex_cursor: u64,
    /// The position in the list of strings that pass the filter.
    pub selected: usize,
    pub scroll_offset: usize,
    pub total_regions: usize,
    pub page_size: usize,
    pub scanning_done: bool,
    pub threads: usize,
    pub json_filter: bool,
    pub range_start: u64,
    pub range_end: u64,
}

/// What an `InteractiveApp` says.
#[verifier::ext_equal]
pub struct AppView {
    pub file_path: PathBuf,
    pub results: Seq<Found>,
    pub filter: Seq<char>,
    pub filter_input: bool,
    pub filter_before: Option<Seq<char>>,
    pub goto_input: bool,
    pub goto_buf: Seq<char>,
    pub hex_view: bool,
    pub raw_hex_mode: bool,
    pub hex_offset: int,
    pub hex_cursor: int,
    pub selected: int,
    pub scroll_offset: int,
    pub total_regions: int,
    pub page_size: int,
    pub scanning_done: bool,
    pub threads: int,
    pub json_filter: bool,
    pub range_start: int,
    pub range_end: int,
}

impl View for InteractiveApp {
    type V = AppView;

    open spec fn view(&self) -> AppView {
        AppView {
            file_path: self.file_path,
            results: found_in(self.results@),
            filter: self.filter@,
            filter_input: self.filter_input,
            filter_before: match self.filter_before {
                Some(s) => Some(s@),
                None => None,
            },
            goto_input: self.goto_input,
            goto_buf: self.goto_buf@,
            hex_view: self.hex_view,
            raw_hex_mode: self.raw_hex_mode,
            hex_offset: self.hex_offset as int,
            hex_cursor: self.hex_cursor as int,
            selected: self.selected as int,
            scroll_offset: self.scroll_offset as int,
            total_regions: self.total_regions as int,
            page_size: self.page_size as int,
            scanning_done: self.scanning_done,
            threads: self.threads as int,
            json_filter: self.json_filter,
            range_start: self.range_start as int,
            range_end: self.range_end as int,
        }
    }
}

/// Whether a text passes a filter: it contains the filter when both are in lower
/// case.
pub open spec fn passes(filter: Seq<char>, text: Seq<char>) -> bool {
    filter.len() == 0 || occurs_in(lowercase(filter), lowercase(text))
}

/// The positions of the first `n` results that pass the filter.
pub open spec fn passing(v: AppView, n: nat) -> Seq<int>
    decreases n,
{
    if n == 0 {
        Seq::empty()
    } else {
        let before = passing(v, (n - 1) as nat);
        if passes(v.filter, v.results[n - 1].text) {
            before.push(n - 1)
        } else {
            before
        }
    }
}

/// The positions of the results that pass the filter, in their order.
pub open spec fn filtered(v: AppView) -> Seq<int> {
    passing(v, v.results.len())
}

/// Positions as integers.
pub open spec fn positions(v: Seq<usize>) -> Seq<int> {
    v.map_values(|i: usize| i as int)
}

/// What lists of characters say.
pub open spec fn char_lists(v: Seq<Vec<char>>) -> Seq<Seq<char>> {
    v.map_values(|s: Vec<char>| s@)
}

/// The positions of the first `n` texts that contain `needle`.
pub open spec fn matches_in(needle: Seq<char>, texts: Seq<Seq<char>>, n: nat) -> Seq<int>
    decreases n,
{
    if n == 0 {
        Seq::empty()
    } else {
        let before = matches_in(needle, texts, (n - 1) as nat);
        if occurs_in(needle, texts[n - 1]) {
            before.push(n - 1)
        } else {
            before
        }
    }
}

/// An ASCII text in lower case.
pub open spec fn plain_lower(s: Seq<char>) -> Seq<char> {
    s.map_values(|c: char| ascii_lower(c))
}

/// How many pages the list has; one when it is empty.
pub open spec fn page_count(v: AppView) -> int {
    if filtered(v).len() == 0 {
        1
    } else {
        (filtered(v).len() + v.page_size - 1) / v.page_size
    }
}

/// The page of the selection, counted from zero.
pub open spec fn page_of_selection(v: AppView) -> int {
    if filtered(v).len() == 0 {
        0
    } else {
        v.selected / v.page_size
    }
}

/// The viewer with its selection and its first line inside the list.
pub open spec fn bounded(v: AppView) -> AppView {
    let len = filtered(v).len() as int;
    AppView {
        selected: if len == 0 {
            0
        } else if v.selected >= len {
            len - 1
        } else {
            v.selected
        },
        scroll_offset: if len == 0 {
            0
        } else if v.scroll_offset >= len {
            len - 1
        } else {
            v.scroll_offset
        },
        ..v
    }
}

/// The viewer a page further.
pub open spec fn paged_forward(v: AppView) -> AppView {
    let page = page_of_selection(v) + 1;
    if page < page_count(v) {
        bounded(
            AppView {
                selected: page * v.page_size,
                scroll_offset: page * v.page_size,
                ..v
            },
        )
    } else {
        v
    }
}

/// The viewer a page back.
pub open spec fn paged_back(v: AppView) -> AppView {
    let page = page_of_selection(v) - 1;
    if page >= 0 {
        AppView { selected: page * v.page_size, scroll_offset: page * v.page_size, ..v }
    } else {
        v
    }
}

/// A machine word taken as a signed number.
pub open spec fn as_signed(n: int) -> int {
    if n <= isize::MAX {
        n
    } else {
        n - usize::MAX - 1
    }
}

/// The viewer with its selection moved by `delta`, kept inside the list.
pub open spec fn moved(v: AppView, delta: int) -> AppView {
    let len = filtered(v).len() as int;
    let to = as_signed(v.selected) + delta;
    if len == 0 {
        v
    } else {
        AppView {
            selected: if to < 0 {
                0
            } else if to >= len {
                len - 1
            } else {
                to
            },
            ..v
        }
    }
}

/// The viewer scrolled so that the selection is among `height` lines.
pub open spec fn scrolled(v: AppView, height: int) -> AppView {
    AppView {
        scroll_offset: if height == 0 {
            v.scroll_offset
        } else if v.selected < v.scroll_offset {
            v.selected
        } else if v.selected >= v.scroll_offset + height {
            v.selected - height + 1
        } else {
            v.scroll_offset
        },
        ..v
    }
}

pub proof fn lemma_passing(v: AppView, n: nat)
    requires
        n <= v.results.len(),
    ensures
        passing(v, n).len() <= n,
        forall|k: int|
            0 <= k < passing(v, n).len() ==> 0 <= #[trigger] passing(v, n)[k] < n && passes(
                v.filter,
                v.results[passing(v, n)[k]].text,
            ),
        forall|i: int|
            0 <= i < n && #[trigger] passes(v.filter, v.results[i].text) ==> passing(v, n).contains(
                i,
            ),
        forall|j: int, k: int|
            0 <= j < k < passing(v, n).len() ==> #[trigger] passing(v, n)[j] < #[trigger] passing(
                v,
                n,
            )[k],
    decreases n,
{
    if n > 0 {
        let m = (n - 1) as nat;
        lemma_passing(v, m);
        let before = passing(v, m);
        let all = passing(v, n);
        assert forall|i: int|
            0 <= i < n && #[trigger] passes(v.filter, v.results[i].text) implies all.contains(i) by {
            if i < m {
                assert(before.contains(i));
                let k = choose|k: int| 0 <= k < before.len() && before[k] == i;
                assert(all[k] == i);
            } else {
                assert(all[before.len() as int] == i);
            }
        }
    }
}

/// The list depends on the results and the filter alone.
pub proof fn lemma_same_list(v: AppView, w: AppView, n: nat)
    requires
        v.results == w.results,
        v.filter == w.filter,
    ensures
        passing(v, n) == passing(w, n),
    decreases n,
{
    if n > 0 {
        lemma_same_list(v, w, (n - 1) as nat);
    }
}

/// Law: the list holds exactly the positions of the results that pass the filter,
/// each once, in their order.
pub proof fn law_filtered_is_exact(v: AppView)
    ensures
        forall|i: int|
            #[trigger] filtered(v).contains(i) <==> 0 <= i < v.results.len() && passes(
                v.filter,
                v.results[i].text,
            ),
        forall|j: int, k: int|
            0 <= j < k < filtered(v).len() ==> #[trigger] filtered(v)[j] < #[trigger] filtered(
                v,
            )[k],
        filtered(v).len() <= v.results.len(),
{
    lemma_passing(v, v.results.len());
    assert forall|i: int| #[trigger] filtered(v).contains(i) implies 0 <= i < v.results.len()
        && passes(v.filter, v.results[i].text) by {
        let k = choose|k: int| 0 <= k < filtered(v).len() && filtered(v)[k] == i;
        assert(filtered(v)[k] == i);
    }
}

/// The texts in lower case that contain the filter in lower case are those of the
/// results that pass it.
proof fn lemma_matches_pass(v: AppView, needle: Seq<char>, hays: Seq<Seq<char>>, n: nat)
    requires
        v.filter.len() > 0,
        needle == lowercase(v.filter),
        n <= v.results.len(),
        hays.len() == v.results.len(),
        forall|k: int| 0 <= k < hays.len() ==> #[trigger] hays[k] == lowercase(v.results[k].text),
    ensures
        matches_in(needle, hays, n) == passing(v, n),
    decreases n,
{
    if n > 0 {
        lemma_matches_pass(v, needle, hays, (n - 1) as nat);
        assert(hays[n - 1] == lowercase(v.results[n - 1].text));
    }
}

proof fn lemma_positions_contain(v: Seq<usize>, k: usize)
    ensures
        v.contains(k) <==> positions(v).contains(k as int),
{
    if v.contains(k) {
        let m = choose|m: int| 0 <= m < v.len() && v[m] == k;
        assert(positions(v)[m] == k);
    }
    if positions(v).contains(k as int) {
        let m = choose|m: int| 0 <= m < positions(v).len() && positions(v)[m] == k;
        assert(v[m] == k);
    }
}

/// Positions that are those of the list are all that pass the filter, in order.
proof fn lemma_positions_exact(v: AppView, r: Seq<usize>)
    requires
        positions(r) == filtered(v),
    ensures
        forall|j: int, k: int| 0 <= j < k < r.len() ==> r[j] < r[k],
        forall|k: int| 0 <= k < r.len() ==> r[k] < v.results.len(),
        forall|i: usize|
            i < v.results.len() ==> (#[trigger] r.contains(i) <==> passes(
                v.filter,
                v.results[i as int].text,
            )),
{
    law_filtered_is_exact(v);
    lemma_passing(v, v.results.len());
    assert forall|j: int, k: int| 0 <= j < k < r.len() implies r[j] < r[k] by {
        assert(positions(r)[j] < positions(r)[k]);
    }
    assert forall|k: int| 0 <= k < r.len() implies r[k] < v.results.len() by {
        assert(passing(v, v.results.len())[k] == positions(r)[k]);
        assert(positions(r)[k] == r[k]);
    }
    assert forall|i: usize| i < v.results.len() implies (#[trigger] r.contains(i) <==> passes(
        v.filter,
        v.results[i as int].text,
    )) by {
        lemma_positions_contain(r, i);
    }
}

/// Law: without a filter, the list holds every result.
pub proof fn law_no_filter_lists_all(v: AppView)
    requires
        v.filter.len() == 0,
    ensures
        filtered(v) == Seq::new(v.results.len(), |i: int| i),
{
    lemma_all_pass(v, v.results.len());
}

proof fn lemma_all_pass(v: AppView, n: nat)
    requires
        v.filter.len() == 0,
    ensures
        passing(v, n) == Seq::new(n, |i: int| i),
    decreases n,
{
    if n > 0 {
        lemma_all_pass(v, (n - 1) as nat);
    }
}

impl InteractiveApp {
    /// A viewer of the file at `path` with nothing found yet.
    pub fn new(path: PathBuf, _size: u64, page_size: usize) -> (app: Self)
        ensures
            app@ == (AppView {
                file_path: path,
                results: Seq::empty(),
                filter: Seq::empty(),
                filter_input: false,
                filter_before: None,
                goto_input: false,
                goto_buf: Seq::empty(),
                hex_view: false,
                raw_hex_mode: false,
                hex_offset: 0,
                hex_cursor: 0,
                selected: 0,
                scroll_offset: 0,
                total_regions: 0,
                page_size: page_size as int,
                scanning_done: false,
                threads: 0,
                json_filter: false,
                range_start: 0,
                range_end: 0,
            }),
    {
        let app = InteractiveApp {
            file_path: path,
            results: Vec::new(),
            filter: String::new(),
            filter_input: false,
            filter_before: None,
            goto_input: false,
            goto_buf: String::new(),
            hex_view: false,
            raw_hex_mode: false,
            hex_offset: 0,
            hex_cursor: 0,
            selected: 0,
            scroll_offset: 0,
            total_regions: 0,
            page_size,
            scanning_done: false,
            threads: 0,
            json_filter: false,
            range_start: 0,
            range_end: 0,
        };
        assert(app@.results == Seq::<Found>::empty());
        app
    }

    /// The positions of the results that pass the filter.
    pub fn filtered_indices(&self) -> (r: Vec<usize>)
        ensures
            positions(r@) == filtered(self@),
            forall|j: int, k: int| 0 <= j < k < r@.len() ==> r@[j] < r@[k],
            forall|k: int| 0 <= k < r@.len() ==> r@[k] < self.results.len(),
            forall|i: usize|
                i < self.results.len() ==> (#[trigger] r@.contains(i) <==> passes(
                    self.filter@,
                    self.results@[i as int].text@,
                )),
            forall|i: usize|
                i < self.results.len() && self.filter@.len() > 0 && all_ascii(self.filter@)
                    && all_ascii(self.results@[i as int].text@) ==> (#[trigger] r@.contains(i)
                    <==> occurs_in(
                    plain_lower(self.filter@),
                    plain_lower(self.results@[i as int].text@),
                )),
    {
        let ghost v = self@;
        if self.filter.as_str().is_empty() {
            let r = all_positions(self.results.len());
            proof {
                law_no_filter_lists_all(v);
                lemma_positions_exact(v, r@);
            }
            return r;
        }
        let lower = to_lowercase(self.filter.as_str());
        let needle = chars_of(lower.as_str());
        let mut hays: Vec<Vec<char>> = Vec::new();
        let mut i: usize = 0;
        while i < self.results.len()
            invariant
                i <= self.results.len(),
                hays.len() == i,
                forall|k: int|
                    0 <= k < i ==> (#[trigger] hays@[k])@ == lowercase(self.results@[k].text@),
                forall|k: int|
                    0 <= k < i && all_ascii(self.results@[k].text@) ==> (#[trigger] hays@[k])@
                        == plain_lower(self.results@[k].text@),
            decreases self.results.len() - i,
        {
            let text = to_lowercase(self.results[i].text.as_str());
            hays.push(chars_of(text.as_str()));
            i += 1;
        }
        let r = positions_of_matches(&needle, &hays);
        proof {
            lemma_matches_pass(v, needle@, char_lists(hays@), v.results.len());
            lemma_positions_exact(v, r@);
            assert forall|i: usize| i < self.results.len() implies (#[trigger] r@.contains(i)
                <==> passes(self.filter@, self.results@[i as int].text@)) by {
                assert(v.results[i as int].text == self.results@[i as int].text@);
            }
            assert forall|k: usize|
                k < self.results.len() && self.filter@.len() > 0 && all_ascii(self.filter@)
                    && all_ascii(self.results@[k as int].text@) implies (#[trigger] r@.contains(k)
                <==> occurs_in(
                plain_lower(self.filter@),
                plain_lower(self.results@[k as int].text@),
            )) by {
                law_filtered_is_exact(v);
                assert(hays@[k as int]@ == plain_lower(self.results@[k as int].text@));
                assert(filtered(v).contains(k as int) <==> passes(
                    v.filter,
                    v.results[k as int].text,
                ));
                lemma_positions_contain(r@, k);
            }
        }
        r
    }

    /// How many results pass the filter.
    pub fn filtered_len(&self) -> (n: usize)
        ensures
            n == filtered(self@).len(),
    {
        let v = self.filtered_indices();
        assert(positions(v@).len() == v.len());
        v.len()
    }

    /// How many pages the list has.
    pub fn total_pages(&self) -> (n: usize)
        requires
            self.page_size > 0,
        ensures
            n == page_count(self@),
    {
        let len: usize = self.filtered_len();
        if len == 0 {
            1
        } else {
            proof {
                lemma_rounded_up(len as int, self.page_size as int);
            }
            (len - 1) / self.page_size + 1
        }
    }

    /// The page of the selection, counted from zero.
    pub fn current_page(&self) -> (n: usize)
        requires
            self.page_size > 0,
        ensures
            n == page_of_selection(self@),
    {
        if self.filtered_len() == 0 {
            0
        } else {
            self.selected / self.page_size
        }
    }

    /// The selected result.
    pub fn selected_result(&self) -> (r: Option<&ScanResult>)
        ensures
            match r {
                Some(s) => self.selected < filtered(self@).len() && *s == self.results@[filtered(
                    self@,
                )[self.selected as int]],
                None => self.selected >= filtered(self@).len(),
            },
    {
        let indices = self.filtered_indices();
        proof {
            lemma_passing(self@, self@.results.len());
            assert(positions(indices@).len() == indices.len());
        }
        if self.selected < indices.len() {
            let ghost k = self.selected as int;
            assert(filtered(self@)[k] == positions(indices@)[k]);
            Some(&self.results[indices[self.selected]])
        } else {
            None
        }
    }

    /// The results sorted by offset.
    pub fn sorted_results(&self) -> (r: Vec<ScanResult>)
        ensures
            stable_sort_of(r@, self.results@),
    {
        let copy = copy_results(&self.results);
        stable_sort(copy)
    }

    /// Brings the selection and the first line inside the list.
    pub fn ensure_selected_in_bounds(&mut self)
        ensures
            final(self)@ == bounded(old(self)@),
    {
        let len: usize = self.filtered_len();
        if len == 0 {
            self.selected = 0;
            self.scroll_offset = 0;
        } else if self.selected >= len {
            self.selected = len - 1;
        }
        if self.scroll_offset >= len {
            self.scroll_offset = len.saturating_sub(1);
        }
    }

    /// Goes a page further, if there is one.
    pub fn next_page(&mut self)
        requires
            old(self).page_size > 0,
        ensures
            final(self)@ == paged_forward(old(self)@),
    {
        let total: usize = self.total_pages();
        let cur: usize = self.current_page();
        if cur < total && total - cur > 1 {
            proof {
                lemma_passing(self@, self@.results.len());
                assert(self@.results.len() == self.results.len());
                lemma_page_inside(filtered(self@).len() as int, self.page_size as int, cur + 1);
            }
            self.selected = (cur + 1) * self.page_size;
            self.scroll_offset = self.selected;
            self.ensure_selected_in_bounds();
        }
    }

    /// Goes a page back, if there is one.
    pub fn prev_page(&mut self)
        requires
            old(self).page_size > 0,
        ensures
            final(self)@ == paged_back(old(self)@),
    {
        let cur: usize = self.current_page();
        if cur > 0 {
            proof {
                lemma_page_start(self.selected as int, self.page_size as int);
            }
            self.selected = (cur - 1) * self.page_size;
            self.scroll_offset = self.selected;
        }
    }

    /// Moves the selection by `delta`.
    pub fn move_selection(&mut self, delta: isize)
        ensures
            final(self)@ == moved(old(self)@, delta as int),
    {
        let len: usize = self.filtered_len();
        if len == 0 {
            return;
        }
        let signed: i128 = if self.selected <= isize::MAX as usize {
            self.selected as i128
        } else {
            self.selected as i128 - usize::MAX as i128 - 1
        };
        let to: i128 = signed + delta as i128;
        if to < 0 {
            self.selected = 0;
        } else if to >= len as i128 {
            self.selected = len - 1;
        } else {
            self.selected = to as usize;
        }
    }

    /// Scrolls so that the selection is among `viewport_h` lines.
    pub fn ensure_visible(&mut self, viewport_h: usize)
        ensures
            final(self)@ == scrolled(old(self)@, viewport_h as int),
    {
        if viewport_h == 0 {
            return;
        }
        if self.selected < self.scroll_offset {
            self.scroll_offset = self.selected;
        } else if self.selected - self.scroll_offset >= viewport_h {
            self.scroll_offset = self.selected - viewport_h + 1;
        }
    }
}

/// Every position below `n`.
fn all_positions(n: usize) -> (r: Vec<usize>)
    ensures
        positions(r@) == Seq::new(n as nat, |i: int| i),
{
    let mut r: Vec<usize> = Vec::new();
    let mut i: usize = 0;
    while i < n
        invariant
            i <= n,
            r.len() == i,
            forall|k: int| 0 <= k < i ==> r@[k] == k,
        decreases n - i,
    {
        r.push(i);
        i += 1;
    }
    assert(positions(r@) == Seq::new(n as nat, |i: int| i));
    r
}

/// The positions of the texts that contain `needle`, in their order.
pub fn positions_of_matches(needle: &Vec<char>, hays: &Vec<Vec<char>>) -> (r: Vec<usize>)
    ensures
        positions(r@) == matches_in(needle@, char_lists(hays@), hays@.len()),
{
    let ghost texts = char_lists(hays@);
    let mut r: Vec<usize> = Vec::new();
    let mut i: usize = 0;
    assert(positions(r@) == matches_in(needle@, texts, 0));
    while i < hays.len()
        invariant
            i <= hays.len(),
            texts == char_lists(hays@),
            positions(r@) == matches_in(needle@, texts, i as nat),
        decreases hays.len() - i,
    {
        if contains_chars(&hays[i], needle) {
            let ghost before = r@;
            r.push(i);
            assert(positions(r@) == positions(before).push(i as int));
        }
        i += 1;
    }
    r
}

fn copy_results(v: &Vec<ScanResult>) -> (r: Vec<ScanResult>)
    ensures
        r@ == v@,
{
    let mut r: Vec<ScanResult> = Vec::new();
    let mut i: usize = 0;
    while i < v.len()
        invariant
            i <= v.len(),
            r@ == v@.take(i as int),
        decreases v.len() - i,
    {
        r.push(v[i].clone());
        i += 1;
    }
    r
}

proof fn lemma_rounded_up(n: int, size: int)
    requires
        n > 0,
        size > 0,
    ensures
        (n - 1) / size + 1 == (n + size - 1) / size,
        0 <= (n - 1) / size <= n - 1,
{
    assert((n - 1) / size + 1 == (n + size - 1) / size) by (nonlinear_arith)
        requires
            n > 0,
            size > 0,
    ;
    assert(0 <= (n - 1) / size <= n - 1) by (nonlinear_arith)
        requires
            n > 0,
            size > 0,
    ;
}

/// A page that exists begins inside the list.
pub proof fn lemma_page_inside(n: int, size: int, page: int)
    requires
        0 <= page,
        size > 0,
        n >= 0,
        page < (if n == 0 {
            1
        } else {
            (n + size - 1) / size
        }),
    ensures
        0 <= page * size,
        n > 0 ==> page * size < n,
        n == 0 ==> page * size == 0,
{
    assert(0 <= page * size) by (nonlinear_arith)
        requires
            0 <= page,
            size > 0,
    ;
    if n > 0 {
        lemma_rounded_up(n, size);
        assert(page <= (n - 1) / size);
        assert(page * size <= n - 1) by (nonlinear_arith)
            requires
                page <= (n - 1) / size,
                size > 0,
                n > 0,
        ;
    } else {
        assert(page == 0);
    }
}

/// The page before begins at zero or behind, and not behind the selection.
pub proof fn lemma_page_start(n: int, size: int)
    requires
        n >= 0,
        size > 0,
        n / size > 0,
    ensures
        0 <= (n / size - 1) * size <= n,
{
    assert(0 <= (n / size - 1) * size <= n) by (nonlinear_arith)
        requires
            n >= 0,
            size > 0,
            n / size > 0,
    ;
}

/// Law: the pages hold the list, and not the last of them is empty. A list without
/// strings has one page.
pub proof fn law_pages_hold_the_list(v: AppView)
    requires
        v.page_size > 0,
    ensures
        filtered(v).len() > 0 ==> (page_count(v) - 1) * v.page_size < filtered(v).len()
            <= page_count(v) * v.page_size,
        filtered(v).len() == 0 ==> page_count(v) == 1,
        page_count(v) >= 1,
{
    let n = filtered(v).len() as int;
    let size = v.page_size;
    if n > 0 {
        let c = (n + size - 1) / size;
        assert((c - 1) * size < n <= c * size && c >= 1) by (nonlinear_arith)
            requires
                n > 0,
                size > 0,
                c == (n + size - 1) / size,
        ;
    }
}

/// Law: the selection is on its page.
pub proof fn law_selection_is_on_its_page(v: AppView)
    requires
        v.page_size > 0,
        v.selected >= 0,
        filtered(v).len() > 0,
    ensures
        page_of_selection(v) * v.page_size <= v.selected,
        v.selected < (page_of_selection(v) + 1) * v.page_size,
        page_of_selection(v) >= 0,
{
    let s = v.selected;
    let size = v.page_size;
    assert((s / size) * size <= s < (s / size + 1) * size && s / size >= 0) by (nonlinear_arith)
        requires
            s >= 0,
            size > 0,
    ;
}

/// Law: going a page on leads to the first string behind the page of the selection, at the
/// top of what is shown, and changes nothing if there is none.
pub proof fn law_next_page_begins_behind(v: AppView)
    requires
        v.page_size > 0,
        0 <= v.selected < filtered(v).len(),
    ensures
        ({
            let w = paged_forward(v);
            let begin = v.selected - v.selected % v.page_size + v.page_size;
            &&& begin < filtered(v).len() ==> w == (AppView {
                selected: begin,
                scroll_offset: begin,
                ..v
            })
            &&& begin >= filtered(v).len() ==> w == v
        }),
{
    let s = v.selected;
    let size = v.page_size;
    let n = filtered(v).len() as int;
    let p = s / size;
    let c = page_count(v);
    law_pages_hold_the_list(v);
    assert(p * size == s - s % size) by (nonlinear_arith)
        requires
            s >= 0,
            size > 0,
            p == s / size,
    ;
    assert((p + 1) * size == p * size + size) by (nonlinear_arith);
    if p + 1 < c {
        assert((p + 1) * size <= (c - 1) * size) by (nonlinear_arith)
            requires
                p + 1 <= c - 1,
                size > 0,
        ;
        let u = AppView { selected: (p + 1) * size, scroll_offset: (p + 1) * size, ..v };
        lemma_same_list(v, u, v.results.len());
    } else {
        assert((p + 1) * size >= c * size) by (nonlinear_arith)
            requires
                p + 1 >= c,
                size > 0,
        ;
    }
}

/// Law: going a page back leads to the beginning of the page before, and changes nothing on
/// the first page.
pub proof fn law_previous_page_begins_before(v: AppView)
    requires
        v.page_size > 0,
        0 <= v.selected < filtered(v).len(),
    ensures
        ({
            let w = paged_back(v);
            let begin = v.selected - v.selected % v.page_size - v.page_size;
            &&& v.selected >= v.page_size ==> w == (AppView {
                selected: begin,
                scroll_offset: begin,
                ..v
            })
            &&& v.selected < v.page_size ==> w == v
        }),
{
    let s = v.selected;
    let size = v.page_size;
    let p = s / size;
    assert(p * size == s - s % size && (p - 1) * size == p * size - size) by (nonlinear_arith)
        requires
            s >= 0,
            size > 0,
            p == s / size,
    ;
    assert(s >= size ==> p >= 1) by (nonlinear_arith)
        requires
            s >= 0,
            size > 0,
            p == s / size,
    ;
    assert(s < size ==> p == 0) by (nonlinear_arith)
        requires
            s >= 0,
            size > 0,
            p == s / size,
    ;
}

/// Law: moving the selection moves it by as much as asked for, as far as the list goes,
/// and nothing else.
pub proof fn law_moving_moves_by_as_much(v: AppView, delta: int)
    requires
        0 <= v.selected < filtered(v).len(),
        v.selected <= isize::MAX,
    ensures
        ({
            let w = moved(v, delta);
            let last = filtered(v).len() - 1;
            &&& w == (AppView { selected: w.selected, ..v })
            &&& 0 <= v.selected + delta <= last ==> w.selected == v.selected + delta
            &&& v.selected + delta < 0 ==> w.selected == 0
            &&& v.selected + delta > last ==> w.selected == last
        }),
{
}

/// Law: what is brought inside the list is moved no further than to its end, and not at
/// all if it is inside.
pub proof fn law_bounds_change_as_little_as_needed(v: AppView)
    requires
        v.selected >= 0,
        v.scroll_offset >= 0,
    ensures
        ({
            let w = bounded(v);
            let n = filtered(v).len() as int;
            &&& w == (AppView { selected: w.selected, scroll_offset: w.scroll_offset, ..v })
            &&& v.selected < n ==> w.selected == v.selected
            &&& v.scroll_offset < n ==> w.scroll_offset == v.scroll_offset
            &&& n > 0 && v.selected >= n ==> w.selected == n - 1
            &&& n > 0 && v.scroll_offset >= n ==> w.scroll_offset == n - 1
            &&& n == 0 ==> w.selected == 0 && w.scroll_offset == 0
        }),
{
}

/// Law: scrolling brings the selection among the lines shown, and moves no further than
/// that takes.
pub proof fn law_scrolling_shows_the_selection(v: AppView, height: int)
    requires
        v.selected >= 0,
        v.scroll_offset >= 0,
        height > 0,
    ensures
        ({
            let w = scrolled(v, height);
            &&& w == (AppView { scroll_offset: w.scroll_offset, ..v })
            &&& 0 <= w.scroll_offset <= v.selected < w.scroll_offset + height
            &&& v.scroll_offset <= v.selected < v.scroll_offset + height ==> w == v
            &&& v.selected < v.scroll_offset ==> w.scroll_offset == v.selected
            &&& v.selected >= v.scroll_offset + height ==> w.scroll_offset + height == v.selected
                + 1
        }),
{
}

/// Law: a text passes a filter that stands in it when both are in lower case; every text
/// passes an empty filter.
pub proof fn law_what_passes(
    filter: Seq<char>,
    text: Seq<char>,
    before: Seq<char>,
    behind: Seq<char>,
)
    ensures
        filter.len() == 0 ==> passes(filter, text),
        lowercase(text) == before + lowercase(filter) + behind ==> passes(filter, text),
        passes(filter, text) && filter.len() > 0 ==> exists|p: int|
            met_at(lowercase(filter), lowercase(text), p),
{
    if lowercase(text) == before + lowercase(filter) + behind {
        lemma_stands(lowercase(text), lowercase(filter), before.len() as int);
    }
    if passes(filter, text) && filter.len() > 0 {
        let needle = lowercase(filter);
        let hay = lowercase(text);
        law_occurrence_is_letter_by_letter(needle, hay);
    }
}

/// Law: the positions of the texts that contain another are those and no others, in order.
pub proof fn law_matches_are_exact(needle: Seq<char>, texts: Seq<Seq<char>>, n: nat)
    requires
        n <= texts.len(),
    ensures
        forall|i: int|
            #[trigger] matches_in(needle, texts, n).contains(i) <==> 0 <= i < n && occurs_in(
                needle,
                texts[i],
            ),
        forall|j: int, k: int|
            0 <= j < k < matches_in(needle, texts, n).len() ==> #[trigger] matches_in(
                needle,
                texts,
                n,
            )[j] < #[trigger] matches_in(needle, texts, n)[k],
    decreases n,
{
    if n > 0 {
        let m = (n - 1) as nat;
        law_matches_are_exact(needle, texts, m);
        let before = matches_in(needle, texts, m);
        let all = matches_in(needle, texts, n);
        assert forall|j: int| 0 <= j < before.len() implies #[trigger] before[j] < m by {
            assert(before.contains(before[j]));
        }
        assert forall|i: int| #[trigger] all.contains(i) implies 0 <= i < n && occurs_in(
            needle,
            texts[i],
        ) by {
            let k = choose|k: int| 0 <= k < all.len() && all[k] == i;
            if k < before.len() {
                assert(before.contains(before[k]));
            }
        }
        assert forall|i: int| 0 <= i < n && occurs_in(needle, texts[i]) implies #[trigger]
            all.contains(i) by {
            if i < m {
                assert(before.contains(i));
                let k = choose|k: int| 0 <= k < before.len() && before[k] == i;
                assert(all[k] == i);
            } else {
                assert(all[before.len() as int] == i);
            }
        }
    }
}

} // verus!
