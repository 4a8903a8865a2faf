//! What a scan prints.
use crate::cli::lemma_padded_hex;
use crate::number::{read_number, NumberFault};
use crate::region::{Piece, PieceView};
use crate::result::{ends_with, Found, ScanResult};
use crate::text::{
    decimal, hex_padded, lemma_digits_are_digits, lemma_stands, occurs_in, push_decimal, push_hex,
};
use vstd::prelude::*;
use vstd::string::StringExecFns;

verus! {

/// The line that reports a string, given the text of its percentage.
pub open spec fn string_line(r: Found, file_size: nat, percent: Seq<char>) -> Seq<char> {
    "[STRING 0x"@ + hex_padded(r.offset as nat, 8) + " dec="@ + decimal(r.offset as nat)
        + " pos="@ + decimal(r.offset as nat) + "/"@ + decimal(file_size) + " ("@ + percent
        + "%) len="@ + decimal(r.length as nat) + "] "@ + r.text + "\n"@
}

/// The line that reports a string.
pub fn format_string_line(r: &ScanResult, file_size: u64, percent: &str) -> (s: String)
    ensures
        s@ == string_line(r@, file_size as nat, percent@),
{
    let mut s = String::new();
    s.append("[STRING 0x");
    push_hex(&mut s, r.offset, 8);
    s.append(" dec=");
    push_decimal(&mut s, r.offset);
    s.append(" pos=");
    push_decimal(&mut s, r.offset);
    s.append("/");
    push_decimal(&mut s, file_size);
    s.append(" (");
    s.append(percent);
    s.append("%) len=");
    push_decimal(&mut s, r.length as u64);
    s.append("] ");
    s.append(r.text.as_str());
    s.append("\n");
    s
}

/// What is printed of a piece, given the text of a percentage.
pub open spec fn piece_text(p: PieceView, file_size: nat, percent: Seq<char>) -> Seq<char> {
    match p {
        PieceView::Dump(line) => line,
        PieceView::Hit(r) => string_line(r, file_size, percent),
    }
}

/// What is printed of a piece. The percentage is that of a string's place in the
/// file.
pub fn format_piece(p: &Piece, file_size: u64, percent: &str) -> (s: String)
    ensures
        s@ == piece_text(p@, file_size as nat, percent@),
{
    match p {
        Piece::Dump(line) => line.clone(),
        Piece::Hit(r) => format_string_line(r, file_size, percent),
    }
}

/// What is printed before a file's scan.
pub open spec fn heading(path: Seq<char>, size: nat) -> Seq<char> {
    "\n============================================================\nFILE: "@ + path
        + "\nSIZE: "@ + decimal(size) + " bytes (0x"@ + hex_padded(size, 0)
        + ")\n============================================================\n"@
}

/// What is printed before a file's scan.
pub fn format_heading(path: &str, size: u64) -> (s: String)
    ensures
        s@ == heading(path@, size as nat),
{
    let mut s = String::new();
    s.append("\n============================================================\nFILE: ");
    s.append(path);
    s.append("\nSIZE: ");
    push_decimal(&mut s, size);
    s.append(" bytes (0x");
    push_hex(&mut s, size, 0);
    s.append(")\n============================================================\n");
    s
}

/// What is printed when the viewer was left, given the size's text in megabytes.
pub open spec fn farewell(path: Seq<char>, size: nat, megabytes: Seq<char>, found: nat) -> Seq<
    char,
> {
    "\nFile: "@ + path + "\nSize: "@ + decimal(size) + " bytes ("@ + megabytes + " MB)\nFound: "@
        + decimal(found) + " strings\n"@
}

/// What is printed when the viewer was left.
pub fn format_farewell(path: &str, size: u64, megabytes: &str, found: usize) -> (s: String)
    ensures
        s@ == farewell(path@, size as nat, megabytes@, found as nat),
{
    let mut s = String::new();
    s.append("\nFile: ");
    s.append(path);
    s.append("\nSize: ");
    push_decimal(&mut s, size);
    s.append(" bytes (");
    s.append(megabytes);
    s.append(" MB)\nFound: ");
    push_decimal(&mut s, found as u64);
    s.append(" strings\n");
    s
}

/// What is printed when a table was written.
pub open spec fn written(count: nat, path: Seq<char>) -> Seq<char> {
    "Wrote "@ + decimal(count) + " strings to "@ + path
}

/// What is printed when a table was written.
pub fn format_written(count: usize, path: &str) -> (s: String)
    ensures
        s@ == written(count as nat, path@),
{
    let mut s = String::new();
    s.append("Wrote ");
    push_decimal(&mut s, count as u64);
    s.append(" strings to ");
    s.append(path);
    s
}

/// Law: the line that reports a string says its offset in hexadecimal and in decimal, the
/// file's size, the percentage and the length, and ends with the whole text and a line end.
pub proof fn law_string_line_tells(r: Found, file_size: nat, percent: Seq<char>)
    requires
        0 <= r.offset <= u64::MAX,
        0 <= r.length,
    ensures
        ({
            let line = string_line(r, file_size, percent);
            let h = hex_padded(r.offset as nat, 8).len() as int;
            &&& h >= 8
            &&& line.len() > 10 + h
            &&& line.subrange(0, 10) == "[STRING 0x"@
            &&& read_number(line.subrange(10, 10 + h), 16, u64::MAX as nat) == Ok::<
                nat,
                NumberFault,
            >(r.offset as nat)
            &&& occurs_in(" dec="@ + decimal(r.offset as nat) + " "@, line)
            &&& occurs_in(
                " pos="@ + decimal(r.offset as nat) + "/"@ + decimal(file_size) + " ("@ + percent
                    + "%)"@,
                line,
            )
            &&& ends_with(line, " len="@ + decimal(r.length as nat) + "] "@ + r.text + "\n"@)
        }),
{
    reveal_strlit("[STRING 0x");
    reveal_strlit(" dec=");
    reveal_strlit(" pos=");
    reveal_strlit(" ");
    reveal_strlit("%)");
    reveal_strlit("%) len=");
    reveal_strlit(" len=");
    reveal_strlit("] ");
    reveal_strlit("\n");
    let line = string_line(r, file_size, percent);
    let hex = hex_padded(r.offset as nat, 8);
    let dec = decimal(r.offset as nat);
    let size = decimal(file_size);
    let length = decimal(r.length as nat);
    lemma_padded_hex(r.offset as u64, 8);
    let a = "[STRING 0x"@ + hex;
    let b = a + " dec="@ + dec;
    let c = b + " pos="@ + dec + "/"@ + size + " ("@ + percent;
    assert(line == c + "%) len="@ + length + "] "@ + r.text + "\n"@);
    assert(a.subrange(0, 10) =~= "[STRING 0x"@);
    let h = hex.len() as int;
    assert(a.subrange(10, 10 + h) =~= hex);
    lemma_parts(a, " dec="@ + dec, " pos="@ + dec + "/"@ + size + " ("@ + percent, c);
    lemma_parts(c, "%) len="@ + length, "] "@ + r.text + "\n"@, line);
    assert(line.subrange(0, 10) =~= a.subrange(0, 10));
    assert(line.subrange(10, 10 + h) =~= a.subrange(10, 10 + h));
    lemma_decimal_part(a, dec, size, percent, c, length, r.text, line);
}

proof fn lemma_parts(a: Seq<char>, b: Seq<char>, c: Seq<char>, whole: Seq<char>)
    requires
        whole =~= a + b + c,
    ensures
        whole.len() >= a.len(),
        forall|i: int| 0 <= i < a.len() ==> whole[i] == a[i],
{
}

proof fn lemma_decimal_part(
    a: Seq<char>,
    dec: Seq<char>,
    size: Seq<char>,
    percent: Seq<char>,
    c: Seq<char>,
    length: Seq<char>,
    text: Seq<char>,
    line: Seq<char>,
)
    requires
        c == a + " dec="@ + dec + " pos="@ + dec + "/"@ + size + " ("@ + percent,
        line == c + "%) len="@ + length + "] "@ + text + "\n"@,
    ensures
        occurs_in(" dec="@ + dec + " "@, line),
        occurs_in(" pos="@ + dec + "/"@ + size + " ("@ + percent + "%)"@, line),
        ends_with(line, " len="@ + length + "] "@ + text + "\n"@),
{
    reveal_strlit(" dec=");
    reveal_strlit(" pos=");
    reveal_strlit(" ");
    reveal_strlit("%)");
    reveal_strlit("%) len=");
    reveal_strlit(" len=");
    let first = " dec="@ + dec + " "@;
    let at = a.len() as int;
    assert(c.subrange(at, (at + first.len()) as int) =~= first);
    assert(line.subrange(at, at + first.len()) =~= c.subrange(at, at + first.len()));
    lemma_stands(line, first, at);
    let front = a + " dec="@ + dec;
    let body = " pos="@ + dec + "/"@ + size + " ("@ + percent;
    assert(c =~= front + body);
    let second = body + "%)"@;
    let from = front.len() as int;
    assert(line.subrange(from, from + second.len()) =~= second);
    lemma_stands(line, second, from);
    let end = " len="@ + length + "] "@ + text + "\n"@;
    assert(line.skip(line.len() - end.len()) =~= end);
}

/// Law: what is printed before a file's scan holds the path and the size, in both ways.
pub proof fn law_heading_tells(path: Seq<char>, size: u64)
    ensures
        occurs_in("FILE: "@ + path + "\n"@, heading(path, size as nat)),
        occurs_in("SIZE: "@ + decimal(size as nat) + " bytes"@, heading(path, size as nat)),
        occurs_in("(0x"@ + hex_padded(size as nat, 1) + ")\n"@, heading(path, size as nat)),
{
    reveal_strlit("\n============================================================\nFILE: ");
    reveal_strlit("\nSIZE: ");
    reveal_strlit("FILE: ");
    reveal_strlit("SIZE: ");
    reveal_strlit("\n");
    reveal_strlit(" bytes");
    reveal_strlit(" bytes (0x");
    reveal_strlit("(0x");
    reveal_strlit(")\n");
    reveal_strlit(")\n============================================================\n");
    let top = "\n============================================================\nFILE: "@;
    let bottom = ")\n============================================================\n"@;
    let text = heading(path, size as nat);
    let dec = decimal(size as nat);
    let hex = hex_padded(size as nat, 0);
    lemma_digits_are_digits(size as nat, 16);
    assert(hex == hex_padded(size as nat, 1));
    let file = "FILE: "@ + path + "\n"@;
    lemma_stands(text, file, 62);
    let amount = "SIZE: "@ + dec + " bytes"@;
    let at = top.len() as int + path.len() + 1;
    lemma_stands(text, amount, at);
    let part = "(0x"@ + hex + ")\n"@;
    let from = at + 6 + dec.len() + 7;
    lemma_stands(text, part, from);
}

/// Law: what is printed when the viewer was left holds the path, the size in bytes and in
/// megabytes, and how many strings were found.
pub proof fn law_farewell_tells(path: Seq<char>, size: nat, megabytes: Seq<char>, found: nat)
    ensures
        occurs_in("File: "@ + path + "\n"@, farewell(path, size, megabytes, found)),
        occurs_in(
            "Size: "@ + decimal(size) + " bytes ("@ + megabytes + " MB)"@,
            farewell(path, size, megabytes, found),
        ),
        occurs_in(
            "Found: "@ + decimal(found) + " strings"@,
            farewell(path, size, megabytes, found),
        ),
{
    reveal_strlit("\nFile: ");
    reveal_strlit("File: ");
    reveal_strlit("\nSize: ");
    reveal_strlit("Size: ");
    reveal_strlit("\n");
    reveal_strlit(" MB)");
    reveal_strlit(" MB)\nFound: ");
    reveal_strlit("Found: ");
    reveal_strlit(" strings");
    reveal_strlit(" strings\n");
    let text = farewell(path, size, megabytes, found);
    let file = "File: "@ + path + "\n"@;
    lemma_stands(text, file, 1);
    let amount = "Size: "@ + decimal(size) + " bytes ("@ + megabytes + " MB)"@;
    let at = 7 + path.len() as int + 1;
    lemma_stands(text, amount, at);
    let count = "Found: "@ + decimal(found) + " strings"@;
    let from = at + amount.len() + 1;
    lemma_stands(text, count, from);
}

/// Law: what is printed when a table was written holds how many strings it has, and ends with
/// the path.
pub proof fn law_written_tells(count: nat, path: Seq<char>)
    ensures
        occurs_in(" "@ + decimal(count) + " strings"@, written(count, path)),
        ends_with(written(count, path), " to "@ + path),
{
    reveal_strlit("Wrote ");
    reveal_strlit(" ");
    reveal_strlit(" strings");
    reveal_strlit(" strings to ");
    reveal_strlit(" to ");
    let text = written(count, path);
    let part = " "@ + decimal(count) + " strings"@;
    lemma_stands(text, part, 5);
    let end = " to "@ + path;
    assert(text.skip(text.len() - end.len()) =~= end);
}

/// Law: of a line of bytes the line itself is printed, of a string the line that reports it.
pub proof fn law_pieces_are_printed_whole(
    line: Seq<char>,
    r: Found,
    file_size: nat,
    percent: Seq<char>,
)
    ensures
        piece_text(PieceView::Dump(line), file_size, percent) == line,
        piece_text(PieceView::Hit(r), file_size, percent) == string_line(r, file_size, percent),
{
}

} // verus!
