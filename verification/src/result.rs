//! What a scan finds, and how it is written down.
use crate::cli::lemma_padded_hex;
use crate::number::{law_digits_read_back, read_number, NumberFault};
use crate::text::{
    chars_of, copies, decimal, hex_padded, law_trim_leaves_the_text, lemma_digits_are_digits,
    lemma_stands, occurs_in, pad_left, pad_right, push_decimal, push_decimal_right, push_hex,
    push_left_aligned, push_right_aligned, trim,
};
use std::path::PathBuf;
use vstd::prelude::*;
use vstd::string::StringExecFns;

verus! {

/// `std::path::PathBuf`, carried and never looked into.
#[verifier::external_type_specification]
#[verifier::external_body]
pub struct ExPathBuf(std::path::PathBuf);

/// `PathBuf::clone` gives the same path again.
pub assume_specification[ <std::path::PathBuf as Clone>::clone ](
    p: &std::path::PathBuf,
) -> (r: std::path::PathBuf)
    ensures
        r == *p,
;

/// A file to scan and its size in bytes.
#[derive(Debug)]
pub struct FileJob {
    pub path: PathBuf,
    pub size: u64,
}

impl Clone for FileJob {
    fn clone(&self) -> (r: Self)
        ensures
            r == *self,
    {
        FileJob { path: self.path.clone(), size: self.size }
    }
}

/// The encoding of a found string.
#[derive(Debug, Clone, Copy, PartialEq, Eq, Structural)]
pub enum Encoding {
    Ascii,
}

impl Encoding {
    /// The name of the encoding.
    pub open spec fn name(self) -> Seq<char> {
        match self {
            Encoding::Ascii => "ASCII"@,
        }
    }

    /// The name of the encoding.
    pub fn label(self) -> (s: String)
        ensures
            s@ == self.name(),
    {
        match self {
            Encoding::Ascii => String::from_str("ASCII"),
        }
    }
}

/// A string found in a file.
#[derive(Debug)]
pub struct ScanResult {
    /// Where in the file it begins.
    pub offset: u64,
    /// How many bytes it takes.
    pub length: usize,
    pub encoding: Encoding,
    pub text: String,
}

/// What a `ScanResult` says.
pub struct Found {
    pub offset: int,
    pub length: int,
    pub encoding: Encoding,
    pub text: Seq<char>,
}

impl View for ScanResult {
    type V = Found;

    open spec fn view(&self) -> Found {
        Found {
            offset: self.offset as int,
            length: self.length as int,
            encoding: self.encoding,
            text: self.text@,
        }
    }
}

impl Clone for ScanResult {
    fn clone(&self) -> (r: Self)
        ensures
            r == *self,
    {
        ScanResult {
            offset: self.offset,
            length: self.length,
            encoding: self.encoding,
            text: self.text.clone(),
        }
    }
}

/// What a list of results says.
pub open spec fn found_in(results: Seq<ScanResult>) -> Seq<Found> {
    results.map_values(|r: ScanResult| r@)
}

/// Digits in groups of three, counted from the right, with commas between them.
pub open spec fn grouped(s: Seq<char>) -> Seq<char>
    decreases s.len(),
{
    if s.len() <= 3 {
        s
    } else {
        grouped(s.take(s.len() - 3)).push(',') + s.skip(s.len() - 3)
    }
}

/// A number in decimal with commas between the groups of three digits.
pub open spec fn with_commas(n: nat) -> Seq<char> {
    grouped(decimal(n))
}

/// Appends the first `n` characters in groups of three.
fn push_grouped(out: &mut String, v: &Vec<char>, n: usize)
    requires
        n <= v.len(),
    ensures
        final(out)@ == old(out)@ + grouped(v@.take(n as int)),
    decreases n,
{
    if n <= 3 {
        let mut i: usize = 0;
        while i < n
            invariant
                i <= n <= v.len(),
                out@ == old(out)@ + v@.take(i as int),
            decreases n - i,
        {
            out.push(v[i]);
            i += 1;
        }
    } else {
        push_grouped(out, v, n - 3);
        out.push(',');
        out.push(v[n - 3]);
        out.push(v[n - 2]);
        out.push(v[n - 1]);
        proof {
            let s = v@.take(n as int);
            assert(s.take(s.len() - 3) == v@.take(n - 3));
            assert(s.skip(s.len() - 3) == seq![v@[n - 3], v@[n - 2], v@[n - 1]]);
        }
    }
}

/// A number in decimal with commas between the groups of three digits.
pub fn format_with_commas(n: u64) -> (s: String)
    ensures
        s@ == with_commas(n as nat),
{
    let mut plain = String::new();
    push_decimal(&mut plain, n);
    let v = chars_of(plain.as_str());
    let mut s = String::new();
    push_grouped(&mut s, &v, v.len());
    assert(v@.take(v.len() as int) == v@);
    s
}

/// The first line of a results table.
pub open spec fn table_heading() -> Seq<char> {
    "# | Offset     | Decimal      | Position              | %      | Length | Encoding | String"@
}

/// The line below the first one.
pub open spec fn table_rule() -> Seq<char> {
    "──┼────────────┼──────────────┼───────────────────────┼────────┼────────┼──────────┼────────────────"@
}

/// The line of the `number`-th result, given the text of its percentage.
pub open spec fn table_line(number: nat, r: Found, file_size: nat, percent: Seq<char>) -> Seq<
    char,
> {
    pad_left(decimal(number), 3, ' ') + " | 0x"@ + hex_padded(r.offset as nat, 8) + " | "@
        + pad_left(with_commas(r.offset as nat), 12, ' ') + " | "@ + pad_left(
        with_commas(r.offset as nat),
        12,
        ' ',
    ) + " / "@ + pad_right(with_commas(file_size), 12) + " | "@ + pad_left(percent, 6, ' ')
        + "% | "@ + pad_left(decimal(r.length as nat), 6, ' ') + " | "@ + r.encoding.name() + " | "@
        + r.text
}

/// The lines of a results table, given the text of each result's percentage.
pub open spec fn table_lines(
    results: Seq<Found>,
    file_size: nat,
    percents: Seq<Seq<char>>,
) -> Seq<Seq<char>> {
    seq![table_heading(), table_rule()] + Seq::new(
        results.len(),
        |i: int| table_line((i + 1) as nat, results[i], file_size, percents[i]),
    )
}

/// What a list of strings says.
pub open spec fn texts(v: Seq<String>) -> Seq<Seq<char>> {
    v.map_values(|s: String| s@)
}

fn format_table_line(number: u64, r: &ScanResult, file_size: u64, percent: &str) -> (s: String)
    ensures
        s@ == table_line(number as nat, r@, file_size as nat, percent@),
{
    let place = format_with_commas(r.offset);
    let size = format_with_commas(file_size);
    let mut s = String::new();
    push_decimal_right(&mut s, number, 3);
    s.append(" | 0x");
    push_hex(&mut s, r.offset, 8);
    s.append(" | ");
    push_right_aligned(&mut s, place.as_str(), 12);
    s.append(" | ");
    push_right_aligned(&mut s, place.as_str(), 12);
    s.append(" / ");
    push_left_aligned(&mut s, size.as_str(), 12);
    s.append(" | ");
    push_right_aligned(&mut s, percent, 6);
    s.append("% | ");
    push_decimal_right(&mut s, r.length as u64, 6);
    s.append(" | ");
    s.append(r.encoding.label().as_str());
    s.append(" | ");
    s.append(r.text.as_str());
    s
}

/// The lines of a results table, given the text of each result's percentage.
pub fn write_results_table(
    results: &Vec<ScanResult>,
    file_size: u64,
    percents: &Vec<String>,
) -> (lines: Vec<String>)
    requires
        percents.len() == results.len(),
    ensures
        texts(lines@) == table_lines(found_in(results@), file_size as nat, texts(percents@)),
{
    let mut lines: Vec<String> = Vec::new();
    lines.push(
        String::from_str(
            "# | Offset     | Decimal      | Position              | %      | Length | Encoding | String",
        ),
    );
    lines.push(
        String::from_str(
            "──┼────────────┼──────────────┼───────────────────────┼────────┼────────┼──────────┼────────────────",
        ),
    );
    let mut i: usize = 0;
    while i < results.len()
        invariant
            i <= results.len(),
            percents.len() == results.len(),
            lines.len() == i + 2,
            lines@[0]@ == table_heading(),
            lines@[1]@ == table_rule(),
            forall|k: int|
                0 <= k < i ==> (#[trigger] lines@[k + 2])@ == table_line(
                    (k + 1) as nat,
                    results@[k]@,
                    file_size as nat,
                    percents@[k]@,
                ),
        decreases results.len() - i,
    {
        let line = format_table_line(i as u64 + 1, &results[i], file_size, percents[i].as_str());
        lines.push(line);
        i += 1;
    }
    proof {
        let want = table_lines(found_in(results@), file_size as nat, texts(percents@));
        assert forall|k: int| 0 <= k < want.len() implies texts(lines@)[k] == want[k] by {
            if k >= 2 {
                assert(lines@[(k - 2) + 2]@ == want[k]);
            }
        }
        assert(texts(lines@) == want);
    }
    lines
}

/// What stands at the `k`-th place from the right if digits are in groups of three: a comma at
/// every fourth place, else the digit that is as far from the right as there are digits there.
pub open spec fn from_right(s: Seq<char>, k: int) -> char {
    if k % 4 == 3 {
        ','
    } else {
        s[s.len() - 1 - (k - k / 4)]
    }
}

proof fn lemma_grouped(s: Seq<char>)
    ensures
        s.len() > 0 ==> grouped(s).len() == s.len() + (s.len() - 1) / 3,
        s.len() == 0 ==> grouped(s).len() == 0,
        forall|k: int|
            0 <= k < grouped(s).len() ==> grouped(s)[grouped(s).len() - 1 - k]
                == #[trigger] from_right(s, k),
    decreases s.len(),
{
    let g = grouped(s);
    if s.len() > 3 {
        let front = s.take(s.len() - 3);
        let f = grouped(front);
        lemma_grouped(front);
        assert forall|k: int| 0 <= k < g.len() implies g[g.len() - 1 - k] == #[trigger] from_right(
            s,
            k,
        ) by {
            if k >= 4 {
                assert(g[g.len() - 1 - k] == f[f.len() - 1 - (k - 4)]);
                assert(from_right(front, k - 4) == from_right(s, k));
            }
        }
    }
}

/// Law: a number with commas is its digits from the right, with a comma behind every three of
/// them, and none in front.
pub proof fn law_commas_group_by_three(n: nat)
    ensures
        ({
            let g = with_commas(n);
            let d = decimal(n);
            &&& g.len() == d.len() + (d.len() - 1) / 3
            &&& forall|k: int|
                0 <= k < g.len() ==> g[g.len() - 1 - k] == #[trigger] from_right(d, k)
            &&& g[0] != ','
        }),
{
    lemma_digits_are_digits(n, 10);
    let d = decimal(n);
    let g = with_commas(n);
    lemma_grouped(d);
    let k = g.len() - 1;
    assert(g[g.len() - 1 - k] == from_right(d, k));
    assert((d.len() + (d.len() - 1) / 3 - 1) % 4 != 3);
}

/// Whether a text ends with another.
pub open spec fn ends_with(s: Seq<char>, end: Seq<char>) -> bool {
    s.len() >= end.len() && s.skip(s.len() - end.len()) == end
}

/// Law: the line of a result begins with its number, says the offset in hexadecimal, the
/// offset and the size of the file in decimal and the percentage, and ends with the length,
/// the encoding and the whole text.
pub proof fn law_table_line_tells(number: u64, r: Found, file_size: nat, percent: Seq<char>)
    requires
        0 <= r.offset <= u64::MAX,
        0 <= r.length,
    ensures
        ({
            let line = table_line(number as nat, r, file_size, percent);
            let first = pad_left(decimal(number as nat), 3, ' ');
            let w = first.len() as int;
            let h = hex_padded(r.offset as nat, 8).len() as int;
            &&& h >= 8
            &&& line.len() > w + 5 + h
            &&& read_number(trim(line.subrange(0, w)), 10, u64::MAX as nat) == Ok::<
                nat,
                NumberFault,
            >(number as nat)
            &&& line.subrange(w, w + 5) == " | 0x"@
            &&& read_number(line.subrange(w + 5, w + 5 + h), 16, u64::MAX as nat) == Ok::<
                nat,
                NumberFault,
            >(r.offset as nat)
            &&& ends_with(
                line,
                " "@ + decimal(r.length as nat) + " | "@ + r.encoding.name() + " | "@ + r.text,
            )
            &&& occurs_in(
                " "@ + with_commas(r.offset as nat) + " / "@ + with_commas(file_size) + " "@,
                line,
            )
            &&& occurs_in(percent + "% | "@, line)
        }),
{
    reveal_strlit(" | 0x");
    reveal_strlit(" | ");
    reveal_strlit(" / ");
    reveal_strlit("% | ");
    reveal_strlit(" ");
    let line = table_line(number as nat, r, file_size, percent);
    let d = decimal(number as nat);
    let first = pad_left(d, 3, ' ');
    let w = first.len() as int;
    let hex = hex_padded(r.offset as nat, 8);
    let commas = with_commas(r.offset as nat);
    let place = pad_left(commas, 12, ' ');
    let size = with_commas(file_size);
    let share = pad_left(percent, 6, ' ');
    let length = decimal(r.length as nat);
    let wide_length = pad_left(length, 6, ' ');
    let head = first + " | 0x"@ + hex;
    let upto_place = head + " | "@ + place + " | "@;
    let upto_share = upto_place + place + " / "@ + pad_right(size, 12) + " | "@;
    let upto_length = upto_share + share + "% | "@;
    let name = r.encoding.name();
    assert(line == upto_length + wide_length + " | "@ + name + " | "@ + r.text);
    // The number and the offset.
    lemma_padded_hex(r.offset as u64, 8);
    lemma_front(first, " | 0x"@, hex, head);
    lemma_keeps_front(head, upto_place, " | "@, place, " | "@);
    lemma_keeps_front(upto_place, upto_share, place + " / "@, pad_right(size, 12), " | "@);
    lemma_keeps_front(upto_share, upto_length, share, "% | "@, Seq::empty());
    lemma_keeps_front(upto_length, line, wide_length + " | "@ + name, " | "@, r.text);
    assert(line.subrange(0, head.len() as int) == head);
    assert(line.subrange(0, w) == head.subrange(0, w));
    assert(line.subrange(w, w + 5) == head.subrange(w, w + 5));
    assert(line.subrange(w + 5, w + 5 + hex.len()) == head.subrange(w + 5, w + 5 + hex.len()));
    lemma_digits_are_digits(number as nat, 10);
    law_digits_read_back(number as nat, 0, 10, u64::MAX as nat);
    let spaces = copies(' ', (w - d.len()) as nat);
    assert(first =~= spaces + d + Seq::<char>::empty());
    law_trim_leaves_the_text(spaces, d, Seq::empty());
    // The rest.
    lemma_end(upto_length, wide_length, length, name, r.text);
    lemma_share(upto_share, share, percent, wide_length + " | "@ + name + " | "@ + r.text, line);
    lemma_place(head + " | "@ + place, commas, size, line, upto_share);
}

proof fn lemma_front(first: Seq<char>, mid: Seq<char>, hex: Seq<char>, head: Seq<char>)
    requires
        head == first + mid + hex,
    ensures
        ({
            let w = first.len() as int;
            let x = w + mid.len();
            &&& head.subrange(0, w) == first
            &&& head.subrange(w, x) == mid
            &&& head.subrange(x, x + hex.len()) == hex
        }),
{
}

proof fn lemma_keeps_front(
    front: Seq<char>,
    whole: Seq<char>,
    a: Seq<char>,
    b: Seq<char>,
    c: Seq<char>,
)
    requires
        whole =~= front + a + b + c,
    ensures
        whole.len() >= front.len(),
        forall|i: int| 0 <= i < front.len() ==> whole[i] == front[i],
        forall|i: int, j: int|
            0 <= i <= j <= front.len() ==> #[trigger] whole.subrange(i, j) == front.subrange(i, j),
{
    assert forall|i: int, j: int|
        0 <= i <= j <= front.len() implies #[trigger] whole.subrange(i, j) == front.subrange(
        i,
        j,
    ) by {
        assert(whole.subrange(i, j) =~= front.subrange(i, j));
    }
}

proof fn lemma_end(
    front: Seq<char>,
    wide_length: Seq<char>,
    length: Seq<char>,
    name: Seq<char>,
    text: Seq<char>,
)
    requires
        wide_length == pad_left(length, 6, ' '),
        front.len() > 0,
        front.last() == ' ',
    ensures
        ends_with(
            front + wide_length + " | "@ + name + " | "@ + text,
            " "@ + length + " | "@ + name + " | "@ + text,
        ),
{
    reveal_strlit(" ");
    let tail = " | "@ + name + " | "@ + text;
    let line = front + wide_length + tail;
    let end = " "@ + length + tail;
    assert(line =~= front + wide_length + " | "@ + name + " | "@ + text);
    assert(end =~= " "@ + length + " | "@ + name + " | "@ + text);
    assert(line.skip(line.len() - end.len()) =~= end);
}

proof fn lemma_share(
    front: Seq<char>,
    share: Seq<char>,
    percent: Seq<char>,
    rest: Seq<char>,
    line: Seq<char>,
)
    requires
        share == pad_left(percent, 6, ' '),
        line =~= front + share + "% | "@ + rest,
    ensures
        occurs_in(percent + "% | "@, line),
{
    let part = percent + "% | "@;
    let from = front.len() + (share.len() - percent.len());
    assert(line.subrange(from, from + part.len()) =~= part);
    lemma_stands(line, part, from);
}

proof fn lemma_place(
    front: Seq<char>,
    commas: Seq<char>,
    size: Seq<char>,
    line: Seq<char>,
    upto_share: Seq<char>,
)
    requires
        upto_share == front + " | "@ + pad_left(commas, 12, ' ') + " / "@ + pad_right(size, 12)
            + " | "@,
        line.len() >= upto_share.len(),
        forall|i: int| 0 <= i < upto_share.len() ==> line[i] == upto_share[i],
    ensures
        occurs_in(" "@ + commas + " / "@ + size + " "@, line),
{
    reveal_strlit(" ");
    reveal_strlit(" | ");
    reveal_strlit(" / ");
    let place = pad_left(commas, 12, ' ');
    let shown = " "@ + commas + " / "@ + size + " "@;
    let at = front.len() + 3 + (place.len() - commas.len()) - 1;
    assert(upto_share.subrange(at, at + shown.len()) =~= shown);
    assert(line.subrange(at, at + shown.len()) =~= shown);
    lemma_stands(line, shown, at);
}

/// Law: a results table has a line for each result below its two lines of heading, in the
/// order of the results, numbered from one.
pub proof fn law_table_has_a_line_for_each(
    results: Seq<Found>,
    file_size: nat,
    percents: Seq<Seq<char>>,
)
    ensures
        table_lines(results, file_size, percents).len() == results.len() + 2,
        forall|i: int|
            0 <= i < results.len() ==> table_lines(results, file_size, percents)[i + 2]
                == table_line((i + 1) as nat, #[trigger] results[i], file_size, percents[i]),
{
}

/// Law: where numbers and texts fit into their columns, the columns of a result's line are these:
/// three for the number, ten for the offset in hexadecimal, twelve for the offset, twelve and
/// twelve for the place in the file, six for the percentage, six for the length, five for the
/// encoding, then the text, with a bar and spaces between them.
pub proof fn law_table_columns(number: nat, r: Found, file_size: nat, percent: Seq<char>)
    requires
        decimal(number).len() <= 3,
        hex_padded(r.offset as nat, 8).len() == 8,
        with_commas(r.offset as nat).len() <= 12,
        with_commas(file_size).len() <= 12,
        percent.len() <= 6,
        decimal(r.length as nat).len() <= 6,
    ensures
        ({
            let line = table_line(number, r, file_size, percent);
            &&& line.len() == 91 + r.text.len()
            &&& line.subrange(0, 3) == pad_left(decimal(number), 3, ' ')
            &&& line.subrange(6, 16) == "0x"@ + hex_padded(r.offset as nat, 8)
            &&& line.subrange(19, 31) == pad_left(with_commas(r.offset as nat), 12, ' ')
            &&& line.subrange(34, 46) == pad_left(with_commas(r.offset as nat), 12, ' ')
            &&& line.subrange(49, 61) == pad_right(with_commas(file_size), 12)
            &&& line.subrange(64, 70) == pad_left(percent, 6, ' ')
            &&& line.subrange(74, 80) == pad_left(decimal(r.length as nat), 6, ' ')
            &&& line.subrange(83, 88) == "ASCII"@
            &&& line.skip(91) == r.text
        }),
{
    reveal_strlit(" | 0x");
    reveal_strlit("0x");
    reveal_strlit(" | ");
    reveal_strlit(" / ");
    reveal_strlit("% | ");
    reveal_strlit("ASCII");
    let line = table_line(number, r, file_size, percent);
    let first = pad_left(decimal(number), 3, ' ');
    let hex = hex_padded(r.offset as nat, 8);
    let place = pad_left(with_commas(r.offset as nat), 12, ' ');
    let size = pad_right(with_commas(file_size), 12);
    let share = pad_left(percent, 6, ' ');
    let length = pad_left(decimal(r.length as nat), 6, ' ');
    let a = first + " | 0x"@ + hex;
    let b = a + " | "@ + place + " | "@;
    let c = b + place + " / "@ + size + " | "@;
    let d = c + share + "% | "@;
    let name = r.encoding.name();
    assert(line == d + length + " | "@ + name + " | "@ + r.text);
    lemma_keeps_front(a, b, " | "@, place, " | "@);
    lemma_keeps_front(b, c, place + " / "@, size, " | "@);
    lemma_keeps_front(c, d, share, "% | "@, Seq::empty());
    lemma_keeps_front(d, line, length + " | "@ + name, " | "@, r.text);
    assert(a.subrange(0, 3) =~= first);
    assert(a.subrange(6, 16) =~= "0x"@ + hex);
    assert(b.subrange(19, 31) =~= place);
    assert(c.subrange(34, 46) =~= place);
    assert(c.subrange(49, 61) =~= size);
    assert(d.subrange(64, 70) =~= share);
    lemma_columns_end(d, length, name, r.text, line);
    assert(line.subrange(0, 3) == first && line.subrange(6, 16) == a.subrange(6, 16));
    assert(line.subrange(19, 31) == b.subrange(19, 31));
    assert(line.subrange(34, 46) == c.subrange(34, 46));
    assert(line.subrange(49, 61) == c.subrange(49, 61));
    assert(line.subrange(64, 70) == d.subrange(64, 70));
}

proof fn lemma_columns_end(
    d: Seq<char>,
    length: Seq<char>,
    name: Seq<char>,
    text: Seq<char>,
    line: Seq<char>,
)
    requires
        d.len() == 74,
        length.len() == 6,
        name == "ASCII"@,
        line == d + length + " | "@ + name + " | "@ + text,
    ensures
        line.len() == 91 + text.len(),
        line.subrange(74, 80) == length,
        line.subrange(83, 88) == "ASCII"@,
        line.skip(91) == text,
{
    reveal_strlit(" | ");
    reveal_strlit("ASCII");
}

} // verus!
