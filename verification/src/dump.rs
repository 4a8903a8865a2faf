//! Bytes in hexadecimal and as characters.
use crate::cli::lemma_padded_hex;
use crate::extract::is_printable;
use crate::number::{read_number, NumberFault};
use crate::runs::printable;
use crate::text::{digit_char, digits, hex_padded, lemma_digits_fit, push_hex};
use vstd::arithmetic::power::pow;
use vstd::prelude::*;
use vstd::string::StringExecFns;

verus! {

/// One byte as two digits and a space.
pub open spec fn hex_byte(b: u8) -> Seq<char> {
    hex_padded(b as nat, 2).push(' ')
}

/// Bytes in hexadecimal, a space behind each.
pub open spec fn hex_bytes(bytes: Seq<u8>) -> Seq<char>
    decreases bytes.len(),
{
    if bytes.len() == 0 {
        Seq::empty()
    } else {
        hex_bytes(bytes.drop_last()) + hex_byte(bytes.last())
    }
}

/// The character that shows a byte: itself if it is printable, else a dot.
pub open spec fn dotted(b: u8) -> char {
    if printable(b) {
        b as char
    } else {
        '.'
    }
}

/// The characters that show bytes.
pub open spec fn dotted_text(bytes: Seq<u8>) -> Seq<char> {
    bytes.map_values(|b: u8| dotted(b))
}

/// The character that shows a byte.
pub fn dotted_char(b: u8) -> (c: char)
    ensures
        c == dotted(b),
{
    if is_printable(b) {
        b as char
    } else {
        '.'
    }
}

/// Appends the bytes from `from` up to but without `to` in hexadecimal.
pub fn push_hex_bytes(out: &mut String, bytes: &[u8], from: usize, to: usize)
    requires
        from <= to <= bytes.len(),
    ensures
        final(out)@ == old(out)@ + hex_bytes(bytes@.subrange(from as int, to as int)),
{
    let mut i: usize = from;
    while i < to
        invariant
            from <= i <= to <= bytes.len(),
            out@ == old(out)@ + hex_bytes(bytes@.subrange(from as int, i as int)),
        decreases to - i,
    {
        push_hex(out, bytes[i] as u64, 2);
        out.push(' ');
        proof {
            let s = bytes@.subrange(from as int, i + 1);
            assert(s.drop_last() == bytes@.subrange(from as int, i as int));
        }
        i += 1;
    }
}

/// Appends the characters that show the bytes from `from` up to but without `to`.
pub fn push_dotted(out: &mut String, bytes: &[u8], from: usize, to: usize)
    requires
        from <= to <= bytes.len(),
    ensures
        final(out)@ == old(out)@ + dotted_text(bytes@.subrange(from as int, to as int)),
{
    let mut i: usize = from;
    while i < to
        invariant
            from <= i <= to <= bytes.len(),
            out@ == old(out)@ + dotted_text(bytes@.subrange(from as int, i as int)),
        decreases to - i,
    {
        out.push(dotted_char(bytes[i]));
        proof {
            assert(dotted_text(bytes@.subrange(from as int, i + 1)) == dotted_text(
                bytes@.subrange(from as int, i as int),
            ).push(dotted(bytes@[i as int])));
        }
        i += 1;
    }
}

/// The line that shows bytes at `offset`, in hexadecimal and as characters. A blank
/// line stands in front of it, unless lines of bytes are all that is printed.
pub open spec fn dump_line(offset: nat, bytes: Seq<u8>, hex_only: bool) -> Seq<char> {
    (if hex_only {
        "0x"@
    } else {
        "\n0x"@
    }) + hex_padded(offset, 16) + "  "@ + hex_bytes(bytes) + " | "@ + dotted_text(bytes) + "\n"@
}

/// The line that shows bytes at `offset`.
pub fn format_dump_line(offset: u64, bytes: &[u8], hex_only: bool) -> (s: String)
    ensures
        s@ == dump_line(offset as nat, bytes@, hex_only),
{
    let n: usize = bytes.len();
    assert(bytes@.subrange(0, n as int) == bytes@);
    let mut s = String::new();
    if hex_only {
        s.append("0x");
    } else {
        s.append("\n0x");
    }
    push_hex(&mut s, offset, 16);
    s.append("  ");
    push_hex_bytes(&mut s, bytes, 0, n);
    s.append(" | ");
    push_dotted(&mut s, bytes, 0, n);
    s.append("\n");
    s
}

/// A byte is shown by its two digits and a space.
proof fn lemma_hex_byte(b: u8)
    ensures
        hex_byte(b) == seq![digit_char((b / 16) as nat), digit_char((b % 16) as nat), ' '],
{
    reveal_with_fuel(digits, 2);
    if b < 16 {
        assert(hex_padded(b as nat, 2) == seq!['0', digit_char(b as nat)]);
    } else {
        assert(hex_padded(b as nat, 2) == seq![
            digit_char((b / 16) as nat),
            digit_char((b % 16) as nat),
        ]);
    }
}

/// The `k`-th byte is shown by the `k`-th three characters.
pub proof fn lemma_hex_bytes_at(bytes: Seq<u8>, k: int)
    requires
        0 <= k < bytes.len(),
    ensures
        hex_bytes(bytes).len() == 3 * bytes.len(),
        hex_bytes(bytes).subrange(3 * k, 3 * k + 3) == hex_byte(bytes[k]),
        hex_byte(bytes[k]).len() == 3,
    decreases bytes.len(),
{
    let front = bytes.drop_last();
    lemma_hex_byte(bytes.last());
    lemma_hex_byte(bytes[k]);
    if k < bytes.len() - 1 {
        lemma_hex_bytes_at(front, k);
        assert(hex_bytes(bytes).subrange(3 * k, 3 * k + 3) == hex_bytes(front).subrange(
            3 * k,
            3 * k + 3,
        ));
    } else {
        if front.len() > 0 {
            lemma_hex_bytes_at(front, 0);
        }
    }
}

/// Law: bytes shown in hexadecimal can be told from it: other bytes are shown
/// otherwise.
pub proof fn law_hex_tells_bytes(a: Seq<u8>, b: Seq<u8>)
    requires
        hex_bytes(a) == hex_bytes(b),
    ensures
        a == b,
{
    if a.len() > 0 {
        lemma_hex_bytes_at(a, 0);
    }
    if b.len() > 0 {
        lemma_hex_bytes_at(b, 0);
    }
    assert forall|k: int| 0 <= k < a.len() implies a[k] == b[k] by {
        lemma_hex_bytes_at(a, k);
        lemma_hex_bytes_at(b, k);
        lemma_hex_byte(a[k]);
        lemma_hex_byte(b[k]);
        assert(hex_byte(a[k])[0] == hex_byte(b[k])[0]);
        assert(hex_byte(a[k])[1] == hex_byte(b[k])[1]);
    }
}

/// What an upper case hexadecimal digit is worth.
pub open spec fn worth(c: char) -> int {
    if '0' <= c <= '9' {
        c as int - 48
    } else if 'A' <= c <= 'F' {
        c as int - 55
    } else {
        -1000
    }
}

/// Whether two digits stand for a byte.
pub open spec fn digits_tell(high: char, low: char, b: u8) -> bool {
    0 <= worth(high) < 16 && 0 <= worth(low) < 16 && 16 * worth(high) + worth(low) == b
}

/// Whether a character shows a byte: itself from 32 to 126, else a dot.
pub open spec fn letter_shows(c: char, b: u8) -> bool {
    c as int == (if 32 <= b <= 126 {
        b as int
    } else {
        46
    })
}

/// Whether three characters from `at` on tell a byte: two digits and a space.
pub open spec fn column_tells(s: Seq<char>, at: int, b: u8) -> bool {
    0 <= at && at + 2 < s.len() && digits_tell(s[at], s[at + 1], b) && s[at + 2] == ' '
}

/// A byte is told by its two digits and a space.
pub proof fn lemma_hex_byte_tells(b: u8)
    ensures
        hex_byte(b).len() == 3,
        column_tells(hex_byte(b), 0, b),
        letter_shows(dotted(b), b),
{
    lemma_hex_byte(b);
}

/// Law: bytes in hexadecimal take three columns each, and the columns of a byte tell it.
pub proof fn law_hex_columns_tell_bytes(bytes: Seq<u8>)
    ensures
        hex_bytes(bytes).len() == 3 * bytes.len(),
        forall|k: int|
            0 <= k < bytes.len() ==> column_tells(hex_bytes(bytes), 3 * k, #[trigger] bytes[k]),
        dotted_text(bytes).len() == bytes.len(),
        forall|k: int|
            0 <= k < bytes.len() ==> letter_shows(dotted_text(bytes)[k], #[trigger] bytes[k]),
{
    if bytes.len() > 0 {
        lemma_hex_bytes_at(bytes, 0);
    }
    assert forall|k: int| 0 <= k < bytes.len() implies column_tells(
        hex_bytes(bytes),
        3 * k,
        #[trigger] bytes[k],
    ) by {
        lemma_hex_bytes_at(bytes, k);
        lemma_hex_byte(bytes[k]);
        let h = hex_bytes(bytes);
        let t = h.subrange(3 * k, 3 * k + 3);
        assert(t[0] == h[3 * k] && t[1] == h[3 * k + 1] && t[2] == h[3 * k + 2]);
    }
}

/// Where in a line of bytes its address begins: behind the blank line, if there is one.
pub open spec fn line_head(hex_only: bool) -> int {
    if hex_only {
        0
    } else {
        1
    }
}

/// Whether a line tells its address and all bytes of `bytes`: sixteen digits that read as
/// the address, three columns for each byte, and a character for each byte.
pub open spec fn line_tells(line: Seq<char>, offset: int, bytes: Seq<u8>, hex_only: bool) -> bool {
    let h = line_head(hex_only);
    let n = bytes.len() as int;
    &&& line.len() == h + 20 + 3 * n + 3 + n + 1
    &&& !hex_only ==> line[0] == '\n'
    &&& line.last() == '\n'
    &&& line[h + 18] == ' ' && line[h + 19] == ' '
    &&& line[h + 20 + 3 * n] == ' ' && line[h + 21 + 3 * n] == '|' && line[h + 22 + 3 * n] == ' '
    &&& line[h] == '0' && line[h + 1] == 'x'
    &&& read_number(line.subrange(h + 2, h + 18), 16, u64::MAX as nat) == Ok::<nat, NumberFault>(
        offset as nat,
    )
    &&& forall|k: int| 0 <= k < n ==> column_tells(line, h + 20 + 3 * k, #[trigger] bytes[k])
    &&& forall|k: int|
        0 <= k < n ==> letter_shows(line[h + 20 + 3 * n + 3 + k], #[trigger] bytes[k])
}

/// Law: a line of bytes tells its address and every one of its bytes, twice.
pub proof fn law_dump_line_tells_bytes(offset: u64, bytes: Seq<u8>, hex_only: bool)
    ensures
        line_tells(dump_line(offset as nat, bytes, hex_only), offset as int, bytes, hex_only),
{
    reveal_strlit("0x");
    reveal_strlit("\n0x");
    reveal_strlit("  ");
    reveal_strlit(" | ");
    reveal_strlit("\n");
    let line = dump_line(offset as nat, bytes, hex_only);
    let h = line_head(hex_only);
    let n = bytes.len() as int;
    let address = hex_padded(offset as nat, 16);
    let hex = hex_bytes(bytes);
    let text = dotted_text(bytes);
    lemma_address_digits(offset);
    lemma_padded_hex(offset, 16);
    law_hex_columns_tell_bytes(bytes);
    assert(line.subrange(h + 2, h + 18) == address);
    assert forall|k: int| 0 <= k < n implies column_tells(
        line,
        h + 20 + 3 * k,
        #[trigger] bytes[k],
    ) by {
        assert(column_tells(hex, 3 * k, bytes[k]));
        assert(line[h + 20 + 3 * k] == hex[3 * k]);
        assert(line[h + 20 + 3 * k + 1] == hex[3 * k + 1]);
        assert(line[h + 20 + 3 * k + 2] == hex[3 * k + 2]);
    }
    assert forall|k: int| 0 <= k < n implies letter_shows(
        line[h + 20 + 3 * n + 3 + k],
        #[trigger] bytes[k],
    ) by {
        assert(letter_shows(text[k], bytes[k]));
        assert(line[h + 20 + 3 * n + 3 + k] == text[k]);
    }
}

/// Law: lines of the same address tell different bytes apart.
pub proof fn law_dump_line_determines_bytes(offset: u64, a: Seq<u8>, b: Seq<u8>, hex_only: bool)
    requires
        dump_line(offset as nat, a, hex_only) == dump_line(offset as nat, b, hex_only),
    ensures
        a == b,
{
    law_dump_line_tells_bytes(offset, a, hex_only);
    law_dump_line_tells_bytes(offset, b, hex_only);
    let line = dump_line(offset as nat, a, hex_only);
    let h = line_head(hex_only);
    assert forall|k: int| 0 <= k < a.len() implies a[k] == b[k] by {
        assert(column_tells(line, h + 20 + 3 * k, a[k]));
        assert(column_tells(line, h + 20 + 3 * k, b[k]));
    }
}

proof fn lemma_address_digits(offset: u64)
    ensures
        hex_padded(offset as nat, 16).len() == 16,
{
    reveal_with_fuel(pow, 17);
    lemma_digits_fit(offset as nat, 16, 16);
    assert(pow(16, 16) == 0x1_0000_0000_0000_0000) by {
        assert(pow(16, 4) == 0x1_0000);
        assert(pow(16, 8) == 0x1_0000_0000);
    }
}

} // verus!
