//! Going to a page, an offset or a result by what was typed.
use crate::cli::{has_hex_prefix, hex_prefixed, lemma_padded_hex};
use crate::number::{
    face, faces, law_digits_read_back, law_number_is_what_its_digits_are_worth,
    law_plus_sign_changes_nothing, lemma_fault_stays, lemma_meaning_is_natural, meaning,
    parse_number, read_digits, read_number, NumberFault,
};
use crate::text::{
    all_plain_space, chars_of, copies, decimal, drop_hash_chars, drop_hashes, drop_leading,
    hex_padded, law_hashes_are_dropped, law_trim_leaves_the_text, lemma_digits_are_digits,
    lemma_digits_fit, lemma_digits_need, lemma_trim_keeps, slice_chars, trim, trim_chars,
};
use crate::tui::{
    bounded, filtered, law_pages_hold_the_list, lemma_page_inside, lemma_passing, lemma_same_list,
    page_count, positions, AppView, InteractiveApp,
};
use vstd::arithmetic::power::pow;
use vstd::prelude::*;

verus! {

/// The first position in the list, from `p` on, of a string at `offset` or behind.
pub open spec fn seek_from(v: AppView, offset: int, p: int) -> Option<int>
    decreases filtered(v).len() - p,
{
    if !(0 <= p < filtered(v).len()) {
        None
    } else if v.results[filtered(v)[p]].offset >= offset {
        Some(p)
    } else {
        seek_from(v, offset, p + 1)
    }
}

/// The viewer with its selection at the `p`-th position of the list.
pub open spec fn with_selection(v: AppView, p: int) -> AppView {
    AppView { selected: p, ..v }
}

/// The viewer after going to a hexadecimal offset: to the first string there or
/// behind, else to the last string.
pub open spec fn gone_to_hex(v: AppView, offset: int) -> AppView {
    match seek_from(v, offset, 0) {
        Some(p) => with_selection(v, p),
        None => if filtered(v).len() > 0 {
            with_selection(v, filtered(v).len() - 1)
        } else {
            v
        },
    }
}

/// The viewer after going to a plain number of `len` characters: to that page, if
/// there is one, else to the first string at that offset or behind, if any.
pub open spec fn gone_to_decimal(v: AppView, n: int, len: int) -> AppView {
    if 1 <= n <= page_count(v) && len < 6 {
        bounded(with_selection(v, (n - 1) * v.page_size))
    } else {
        match seek_from(v, n, 0) {
            Some(p) => with_selection(v, p),
            None => v,
        }
    }
}

/// The viewer after going to what was typed: an offset after `0x`, a page or an
/// offset, or a result's number after `#`. Anything else changes nothing.
pub open spec fn gone_to(v: AppView) -> AppView {
    let input = trim(v.goto_buf);
    if input.len() == 0 {
        v
    } else if has_hex_prefix(input) && read_number(input.skip(2), 16, u64::MAX as nat) is Ok {
        gone_to_hex(v, read_number(input.skip(2), 16, u64::MAX as nat)->Ok_0 as int)
    } else if read_number(input, 10, u64::MAX as nat) is Ok {
        gone_to_decimal(
            v,
            read_number(input, 10, u64::MAX as nat)->Ok_0 as int,
            input.len() as int,
        )
    } else {
        match read_number(drop_hashes(input), 10, usize::MAX as nat) {
            Ok(n) => if 1 <= n <= filtered(v).len() {
                with_selection(v, n - 1)
            } else {
                v
            },
            Err(_) => v,
        }
    }
}

fn seek(app: &InteractiveApp, offset: u64) -> (r: Option<usize>)
    ensures
        match r {
            Some(p) => seek_from(app@, offset as int, 0) == Some(p as int),
            None => seek_from(app@, offset as int, 0) is None,
        },
{
    let indices = app.filtered_indices();
    let ghost v = app@;
    proof {
        lemma_passing(v, v.results.len());
        assert(positions(indices@).len() == indices.len());
    }
    let mut p: usize = 0;
    while p < indices.len()
        invariant
            p <= indices.len(),
            v == app@,
            positions(indices@) == filtered(v),
            indices.len() == filtered(v).len(),
            forall|k: int|
                0 <= k < filtered(v).len() ==> 0 <= #[trigger] filtered(v)[k] < v.results.len(),
            seek_from(v, offset as int, 0) == seek_from(v, offset as int, p as int),
        decreases indices.len() - p,
    {
        assert(filtered(v)[p as int] == positions(indices@)[p as int]);
        if app.results[indices[p]].offset >= offset {
            return Some(p);
        }
        p += 1;
    }
    None
}

/// Goes to what was typed.
pub fn handle_goto(app: &mut InteractiveApp)
    requires
        old(app).page_size > 0,
    ensures
        final(app)@ == gone_to(old(app)@),
{
    let input = trim_chars(&chars_of(app.goto_buf.as_str()));
    let ghost v = app@;
    if input.len() == 0 {
        return;
    }
    if hex_prefixed(&input) {
        let body = slice_chars(&input, 2, input.len());
        assert(body@ == input@.skip(2));
        if let Ok(offset) = parse_number(&body, 16, u64::MAX) {
            match seek(app, offset) {
                Some(p) => {
                    app.selected = p;
                },
                None => {
                    let len: usize = app.filtered_len();
                    if len > 0 {
                        app.selected = len - 1;
                    }
                },
            }
            return;
        }
    }
    if let Ok(n) = parse_number(&input, 10, u64::MAX) {
        let total: usize = app.total_pages();
        if n >= 1 && n <= total as u64 && input.len() < 6 {
            proof {
                lemma_passing(v, v.results.len());
                assert(v.results.len() == app.results.len());
                lemma_page_inside(filtered(v).len() as int, v.page_size, n - 1);
            }
            app.selected = (n as usize - 1) * app.page_size;
            app.ensure_selected_in_bounds();
        } else {
            match seek(app, n) {
                Some(p) => {
                    app.selected = p;
                },
                None => {},
            }
        }
        return;
    }
    if let Ok(n) = parse_number(&drop_hash_chars(&input), 10, usize::MAX as u64) {
        if n >= 1 && n <= app.filtered_len() as u64 {
            app.selected = (n - 1) as usize;
        }
    }
}

/// Law: the string that is sought is the first of the list at the offset or
/// behind; all before it are in front of the offset.
pub proof fn law_seek_finds_the_first(v: AppView, offset: int)
    ensures
        match seek_from(v, offset, 0) {
            Some(p) => {
                &&& 0 <= p < filtered(v).len()
                &&& v.results[filtered(v)[p]].offset >= offset
                &&& forall|k: int|
                    0 <= k < p ==> v.results[#[trigger] filtered(v)[k]].offset < offset
            },
            None => forall|k: int|
                0 <= k < filtered(v).len() ==> v.results[#[trigger] filtered(v)[k]].offset < offset,
        },
{
    lemma_seek(v, offset, 0);
}

proof fn lemma_seek(v: AppView, offset: int, p: int)
    requires
        0 <= p <= filtered(v).len(),
        forall|k: int| 0 <= k < p ==> v.results[#[trigger] filtered(v)[k]].offset < offset,
    ensures
        match seek_from(v, offset, p) {
            Some(q) => {
                &&& 0 <= q < filtered(v).len()
                &&& v.results[filtered(v)[q]].offset >= offset
                &&& forall|k: int|
                    0 <= k < q ==> v.results[#[trigger] filtered(v)[k]].offset < offset
            },
            None => forall|k: int|
                0 <= k < filtered(v).len() ==> v.results[#[trigger] filtered(v)[k]].offset < offset,
        },
    decreases filtered(v).len() - p,
{
    if p < filtered(v).len() && v.results[filtered(v)[p]].offset < offset {
        lemma_seek(v, offset, p + 1);
    }
}

/// Law: going somewhere leaves the selection where it was or puts it inside the
/// list, and changes nothing else but the first line shown.
pub proof fn law_goto_stays_in_the_list(v: AppView)
    requires
        v.page_size > 0,
    ensures
        gone_to(v).selected == v.selected || 0 <= gone_to(v).selected < filtered(v).len() || (
        filtered(v).len() == 0 && gone_to(v).selected == 0),
        gone_to(v) == (AppView {
            selected: gone_to(v).selected,
            scroll_offset: gone_to(v).scroll_offset,
            ..v
        }),
{
    let input = trim(v.goto_buf);
    if let Ok(n) = read_number(input.skip(2), 16, u64::MAX as nat) {
        lemma_seek(v, n as int, 0);
    }
    if let Ok(n) = read_number(input, 10, u64::MAX as nat) {
        lemma_seek(v, n as int, 0);
        let w = with_selection(v, (n - 1) * v.page_size);
        lemma_same_list(v, w, v.results.len());
        if 1 <= n <= page_count(v) {
            lemma_page_inside(filtered(v).len() as int, v.page_size, n - 1);
        }
    }
}

/// Law: an offset typed in hexadecimal leads to the first string there or behind, or
/// to the last one if there is none.
pub proof fn law_typed_hex_is_an_offset(v: AppView, n: u64, width: nat)
    requires
        v.goto_buf == "0x"@ + hex_padded(n as nat, width),
    ensures
        gone_to(v) == gone_to_hex(v, n as int),
{
    reveal_strlit("0x");
    let body = hex_padded(n as nat, width);
    lemma_padded_hex(n, width);
    assert(v.goto_buf.last() == body[body.len() - 1]);
    lemma_trim_keeps(v.goto_buf);
    assert(v.goto_buf.skip(2) == body);
}

/// Law: the number of a page, typed in fewer than six digits, leads to the beginning
/// of that page.
pub proof fn law_typed_number_is_a_page(v: AppView, n: nat)
    requires
        v.page_size > 0,
        v.goto_buf == decimal(n),
        decimal(n).len() < 6,
        1 <= n <= page_count(v),
        n <= u64::MAX,
    ensures
        gone_to(v).selected == (n - 1) * v.page_size,
{
    let input = v.goto_buf;
    lemma_digits_are_digits(n, 10);
    lemma_trim_keeps(input);
    law_digits_read_back(n, 0, 10, u64::MAX as nat);
    assert(!has_hex_prefix(input));
    let w = with_selection(v, (n - 1) * v.page_size);
    lemma_same_list(v, w, v.results.len());
    lemma_page_inside(filtered(v).len() as int, v.page_size, n - 1);
}

/// Law: a result's number, typed behind a number sign, leads to that result.
pub proof fn law_typed_sign_is_a_result(v: AppView, n: nat)
    requires
        v.goto_buf == seq!['#'] + decimal(n),
        1 <= n <= filtered(v).len(),
        n <= usize::MAX,
    ensures
        gone_to(v).selected == n - 1,
{
    lemma_sign_reads(v.goto_buf, n);
}

/// A number sign in front of a number is no number, and is dropped.
proof fn lemma_sign_reads(input: Seq<char>, n: nat)
    requires
        input == seq!['#'] + decimal(n),
        n <= usize::MAX,
    ensures
        trim(input) == input,
        !has_hex_prefix(input),
        read_number(input, 10, u64::MAX as nat) is Err,
        read_number(drop_hashes(input), 10, usize::MAX as nat) == Ok::<nat, NumberFault>(n),
{
    let number = decimal(n);
    lemma_digits_are_digits(n, 10);
    assert(input.last() == number[number.len() - 1]);
    lemma_trim_keeps(input);
    assert(read_number(input, 10, u64::MAX as nat) is Err) by {
        let sign = input.take(1);
        assert(sign.drop_last() == Seq::<char>::empty());
        assert(sign.last() == '#');
        assert(read_digits(Seq::<char>::empty(), 10, u64::MAX as nat) == Ok::<nat, NumberFault>(0));
        assert(read_digits(sign, 10, u64::MAX as nat) is Err);
        lemma_fault_stays(input, 1, 10, u64::MAX as nat);
    }
    assert(input.skip(1) == number);
    let p = |c: char| c == '#';
    assert(drop_leading(number, p) == number);
    assert(drop_hashes(input) == number);
    law_digits_read_back(n, 0, 10, usize::MAX as nat);
}

/// The offset of the string at position `k` of the list.
pub open spec fn listed_offset(v: AppView, k: int) -> int {
    v.results[filtered(v)[k]].offset
}

/// Whether position `p` is that of the first listed string at `offset` or behind.
pub open spec fn first_at(v: AppView, offset: int, p: int) -> bool {
    &&& 0 <= p < filtered(v).len()
    &&& listed_offset(v, p) >= offset
    &&& forall|k: int| 0 <= k < p ==> #[trigger] listed_offset(v, k) < offset
}

/// Whether all listed strings are in front of `offset`.
pub open spec fn all_before(v: AppView, offset: int) -> bool {
    forall|k: int| 0 <= k < filtered(v).len() ==> #[trigger] listed_offset(v, k) < offset
}

proof fn lemma_seek_tells(v: AppView, offset: int)
    ensures
        match seek_from(v, offset, 0) {
            Some(p) => first_at(v, offset, p) && !all_before(v, offset),
            None => all_before(v, offset),
        },
{
    law_seek_finds_the_first(v, offset);
    match seek_from(v, offset, 0) {
        Some(p) => {
            assert(listed_offset(v, p) >= offset);
            assert forall|k: int| 0 <= k < p implies #[trigger] listed_offset(v, k) < offset by {
                assert(v.results[filtered(v)[k]].offset < offset);
            }
        },
        None => {
            assert forall|k: int| 0 <= k < filtered(v).len() implies #[trigger] listed_offset(v, k)
                < offset by {
                assert(v.results[filtered(v)[k]].offset < offset);
            }
        },
    }
}

/// Law: after an offset was typed in hexadecimal, the selected string is the first of the
/// list at the offset or behind; the last of the list, where all are in front of it; and
/// the selection is where it was, where the list is empty.
pub proof fn law_typed_hex_selects_the_first(v: AppView, n: u64, width: nat)
    requires
        v.goto_buf == "0x"@ + hex_padded(n as nat, width),
    ensures
        ({
            let w = gone_to(v);
            &&& !all_before(v, n as int) ==> first_at(v, n as int, w.selected)
            &&& all_before(v, n as int) && filtered(v).len() > 0 ==> w.selected == filtered(v).len()
                - 1
            &&& filtered(v).len() == 0 ==> w.selected == v.selected
            &&& w == (AppView { selected: w.selected, ..v })
        }),
{
    law_typed_hex_is_an_offset(v, n, width);
    lemma_seek_tells(v, n as int);
}

/// Law: after a number below 100000 was typed, the selection is at the beginning of the
/// page with that number, if the list has one. After any other number it is at the first
/// string of the list at that offset or behind, or where it was if there is none.
pub proof fn law_typed_decimal_selects_page_or_first(v: AppView, n: u64)
    requires
        v.page_size > 0,
        v.goto_buf == decimal(n as nat),
    ensures
        ({
            let w = gone_to(v);
            let begin = (n - 1) * v.page_size;
            let page = 1 <= n < 100000 && (n == 1 || begin < filtered(v).len());
            &&& page ==> w.selected == begin
            &&& !page && !all_before(v, n as int) ==> first_at(v, n as int, w.selected)
            &&& !page && all_before(v, n as int) ==> w.selected == v.selected
        }),
{
    let input = v.goto_buf;
    let len = filtered(v).len() as int;
    lemma_digits_are_digits(n as nat, 10);
    lemma_trim_keeps(input);
    law_digits_read_back(n as nat, 0, 10, u64::MAX as nat);
    assert(!has_hex_prefix(input));
    lemma_seek_tells(v, n as int);
    assert(pow(10, 5) == 100000) by {
        reveal_with_fuel(pow, 6);
    }
    if n < 100000 {
        lemma_digits_fit(n as nat, 10, 5);
    } else {
        lemma_digits_need(n as nat, 10, 5);
    }
    law_pages_hold_the_list(v);
    let c = page_count(v);
    if n >= 1 {
        if n <= c && len > 0 {
            assert((n - 1) * v.page_size <= (c - 1) * v.page_size) by (nonlinear_arith)
                requires
                    n <= c,
                    v.page_size > 0,
            ;
        }
        if n > c && len > 0 {
            assert((n - 1) * v.page_size >= c * v.page_size) by (nonlinear_arith)
                requires
                    n > c,
                    v.page_size > 0,
            ;
        }
        if n > 1 && len == 0 {
            assert((n - 1) * v.page_size >= 0) by (nonlinear_arith)
                requires
                    n > 1,
                    v.page_size > 0,
            ;
        }
        if n == 1 {
            assert((n - 1) * v.page_size == 0) by (nonlinear_arith)
                requires
                    n == 1,
            ;
        }
        if n <= c && n < 100000 {
            law_typed_number_is_a_page(v, n as nat);
        }
    }
}

/// Law: a number behind a number sign selects the result with that number, counted from
/// one, and nothing if the list has none.
pub proof fn law_typed_sign_selects_by_number(v: AppView, n: nat)
    requires
        v.goto_buf == seq!['#'] + decimal(n),
        n <= usize::MAX,
    ensures
        1 <= n <= filtered(v).len() ==> gone_to(v).selected == n - 1,
        !(1 <= n <= filtered(v).len()) ==> gone_to(v) == v,
{
    if 1 <= n <= filtered(v).len() {
        law_typed_sign_is_a_result(v, n);
    } else {
        lemma_sign_reads(v.goto_buf, n);
    }
}

/// Law: white space around what is typed does not matter, nor whether digits are in upper or
/// lower case or the prefix is `0x` or `0X`: an offset in hexadecimal selects the first string
/// of the list there or behind, or the last one where all are in front of it.
pub proof fn law_typed_hex_is_what_its_digits_are_worth(
    v: AppView,
    before: Seq<char>,
    x: char,
    s: Seq<char>,
    behind: Seq<char>,
)
    requires
        x == 'x' || x == 'X',
        s.len() > 0,
        faces(s, 16),
        meaning(s, 16) <= u64::MAX,
        all_plain_space(before) && all_plain_space(behind),
        v.goto_buf == before + (seq!['0', x] + s) + behind,
    ensures
        ({
            let w = gone_to(v);
            let n = meaning(s, 16);
            &&& !all_before(v, n) ==> first_at(v, n, w.selected)
            &&& all_before(v, n) && filtered(v).len() > 0 ==> w.selected == filtered(v).len() - 1
            &&& filtered(v).len() == 0 ==> w.selected == v.selected
            &&& w == (AppView { selected: w.selected, ..v })
        }),
{
    let input = seq!['0', x] + s;
    let last = s[s.len() - 1];
    assert(0 <= face(last));
    assert(0 <= face(s[0]));
    assert(input.last() == last);
    law_trim_leaves_the_text(before, input, behind);
    assert(input.skip(2) == s);
    law_number_is_what_its_digits_are_worth(s, 16, u64::MAX as nat);
    lemma_meaning_is_natural(s, 16);
    lemma_seek_tells(v, meaning(s, 16));
}

/// Law: digits alone, with white space around them or not, are the number of a page if there
/// are fewer than six of them and the list has that page, which begins with the selection then.
/// Else they are an offset, and select the first string of the list there or behind, or nothing
/// where all are in front of it.
pub proof fn law_typed_digits_are_a_page_or_an_offset(
    v: AppView,
    before: Seq<char>,
    s: Seq<char>,
    behind: Seq<char>,
)
    requires
        v.page_size > 0,
        s.len() > 0,
        faces(s, 10),
        meaning(s, 10) <= u64::MAX,
        all_plain_space(before) && all_plain_space(behind),
        v.goto_buf == before + s + behind,
    ensures
        ({
            let w = gone_to(v);
            let n = meaning(s, 10);
            let begin = (n - 1) * v.page_size;
            let page = s.len() < 6 && n >= 1 && (n == 1 || begin < filtered(v).len());
            &&& page ==> w.selected == begin
            &&& page && 0 <= v.scroll_offset < filtered(v).len() ==> w == (AppView {
                selected: begin,
                ..v
            })
            &&& !page && !all_before(v, n) ==> first_at(v, n, w.selected) && w == (AppView {
                selected: w.selected,
                ..v
            })
            &&& !page && all_before(v, n) ==> w == v
        }),
{
    let n = meaning(s, 10);
    let len = filtered(v).len() as int;
    let last = s[s.len() - 1];
    assert(0 <= face(last));
    assert(0 <= face(s[0]));
    law_trim_leaves_the_text(before, s, behind);
    law_number_is_what_its_digits_are_worth(s, 10, u64::MAX as nat);
    lemma_meaning_is_natural(s, 10);
    if s.len() >= 2 {
        assert(0 <= face(s[1]) < 10);
    }
    assert(!has_hex_prefix(s));
    lemma_seek_tells(v, n);
    law_pages_hold_the_list(v);
    let c = page_count(v);
    if n >= 1 {
        lemma_page_begins(n, c, v.page_size, len);
        if n <= c {
            let w = with_selection(v, (n - 1) * v.page_size);
            lemma_same_list(v, w, v.results.len());
            lemma_page_inside(len, v.page_size, n - 1);
        }
    }
}

proof fn lemma_page_begins(n: int, c: int, size: int, len: int)
    requires
        n >= 1,
        c >= 1,
        size > 0,
        len >= 0,
        len > 0 ==> (c - 1) * size < len <= c * size,
        len == 0 ==> c == 1,
    ensures
        n <= c <==> n == 1 || (n - 1) * size < len,
        n == 1 ==> (n - 1) * size == 0,
{
    assert(n == 1 ==> (n - 1) * size == 0) by (nonlinear_arith);
    if n <= c {
        assert((n - 1) * size <= (c - 1) * size) by (nonlinear_arith)
            requires
                n <= c,
                size > 0,
        ;
    } else {
        assert((n - 1) * size >= c * size) by (nonlinear_arith)
            requires
                n > c,
                size > 0,
        ;
        assert(c * size > 0) by (nonlinear_arith)
            requires
                c >= 1,
                size > 0,
        ;
    }
}

/// Law: number signs in front of digits make them the number of a result, counted from one,
/// however many signs there are.
pub proof fn law_typed_signs_select_by_number(v: AppView, signs: nat, s: Seq<char>)
    requires
        signs > 0,
        s.len() > 0,
        faces(s, 10),
        meaning(s, 10) <= usize::MAX,
        v.goto_buf == copies('#', signs) + s,
    ensures
        1 <= meaning(s, 10) <= filtered(v).len() ==> gone_to(v) == (AppView {
            selected: meaning(s, 10) - 1,
            ..v
        }),
        !(1 <= meaning(s, 10) <= filtered(v).len()) ==> gone_to(v) == v,
{
    let input = v.goto_buf;
    let last = s[s.len() - 1];
    assert(0 <= face(last));
    assert(0 <= face(s[0]));
    assert(input.last() == last);
    assert(input[0] == '#');
    law_trim_leaves_the_text(Seq::empty(), input, Seq::empty());
    assert(Seq::<char>::empty() + input + Seq::<char>::empty() == input);
    assert(face(input[0]) == -1);
    law_number_is_what_its_digits_are_worth(input, 10, u64::MAX as nat);
    law_hashes_are_dropped(signs, s);
    law_number_is_what_its_digits_are_worth(s, 10, usize::MAX as nat);
    lemma_meaning_is_natural(s, 10);
}

/// Law: what holds a character that is no digit, no sign and no `x` leads nowhere, and neither
/// does nothing.
pub proof fn law_typed_nonsense_leads_nowhere(v: AppView, k: int)
    requires
        ({
            let input = trim(v.goto_buf);
            input.len() == 0 || 0 <= k < input.len() && face(input[k]) == -1 && input[k] != '#'
                && input[k] != '+' && input[k] != 'x' && input[k] != 'X'
        }),
    ensures
        gone_to(v) == v,
{
    let input = trim(v.goto_buf);
    if input.len() > 0 {
        lemma_bad_digit(input, k, 10, u64::MAX as nat);
        if has_hex_prefix(input) {
            assert(face(input[0]) == 0);
            let body = input.skip(2);
            assert(body[k - 2] == input[k]);
            lemma_bad_digit(body, k - 2, 16, u64::MAX as nat);
        }
        let at = lemma_signs_in_front(input, k);
        lemma_bad_digit(drop_hashes(input), at, 10, usize::MAX as nat);
    }
}

proof fn lemma_bad_digit(s: Seq<char>, k: int, base: nat, max: nat)
    requires
        0 <= k < s.len(),
        face(s[k]) == -1,
        s[k] != '+',
        2 <= base <= 16,
    ensures
        read_number(s, base, max) is Err,
{
    if s[0] == '+' {
        let rest = s.skip(1);
        assert(rest[k - 1] == s[k]);
        assert(s == seq!['+'] + rest);
        law_plus_sign_changes_nothing(rest, base, max);
        if rest[0] != '+' {
            law_number_is_what_its_digits_are_worth(rest, base, max);
        }
    } else {
        law_number_is_what_its_digits_are_worth(s, base, max);
    }
}

/// A character that is no number sign is kept when those in front are dropped.
proof fn lemma_signs_in_front(s: Seq<char>, k: int) -> (at: int)
    requires
        0 <= k < s.len(),
        s[k] != '#',
    ensures
        0 <= at < drop_hashes(s).len(),
        drop_hashes(s)[at] == s[k],
    decreases s.len(),
{
    if s[0] == '#' {
        assert(s.skip(1)[k - 1] == s[k]);
        lemma_signs_in_front(s.skip(1), k - 1)
    } else {
        k
    }
}

} // verus!
