//! The settings of a run, and how offsets are written on the command line.
use crate::bounds::{larger, max_u64, min_u64, smaller};
use crate::number::{
    face, faces, law_digits_read_back, law_number_is_what_its_digits_are_worth, meaning,
    parse_number, read_number, NumberFault,
};
use crate::result::{grouped, with_commas};
use crate::text::{
    all_plain_space, bare, chars_of, copies, decimal, digits, hex_padded, is_upper_hex,
    law_trim_leaves_the_text, lemma_digits_are_digits, lemma_stands, lemma_trim_keeps, occurs_in,
    push_chars, slice_chars, trim, trim_chars,
};
use std::path::PathBuf;
use vstd::prelude::*;
use vstd::string::StringExecFns;

verus! {

/// How many bytes are read at once, unless something else is asked for.
pub const DEFAULT_CHUNK: usize = 4096;

/// How many bytes a worker is given, unless something else is asked for.
pub const DEFAULT_REGION: u64 = 67108864;

/// How long a string must be to be listed, unless something else is asked for.
pub const MIN_STRING: usize = 4;

/// How far past its end a region is read for the strings that begin in it.
pub const OVERLAP: u64 = 4096;

/// The settings of a run.
#[derive(Debug)]
pub struct Args {
    /// File or directory to scan.
    pub input: PathBuf,
    /// Number of worker threads. Zero leaves it to the machine.
    pub threads: usize,
    /// How many bytes are read and shown at once inside a region.
    pub chunk: usize,
    /// How many bytes a worker is given.
    pub region: u64,
    /// Only strings are printed.
    pub strings_only: bool,
    /// Only bytes are printed.
    pub hex_only: bool,
    /// How long a string must be to be listed.
    pub min_string: usize,
    /// Directories inside directories are scanned too.
    pub recursive: bool,
    /// The interactive viewer is wanted.
    pub interactive: bool,
    /// How many results a page of the viewer has.
    pub page_size: usize,
    /// Where to write the table of all results.
    pub output: Option<PathBuf>,
    /// Only strings that are JSON objects or arrays are wanted.
    pub json: bool,
    /// The first byte of the range that is wanted.
    pub start_offset: Option<u64>,
    /// The byte behind the range that is wanted.
    pub end_offset: Option<u64>,
    /// The range that is wanted: its first byte and the byte behind it.
    pub range: Option<Vec<u64>>,
}

/// Whether two ranges from the command line say the same.
pub open spec fn same_range(a: Option<Vec<u64>>, b: Option<Vec<u64>>) -> bool {
    match (a, b) {
        (Some(x), Some(y)) => x@ == y@,
        (None, None) => true,
        _ => false,
    }
}

impl Clone for Args {
    fn clone(&self) -> (r: Self)
        ensures
            r == (Args { range: r.range, ..*self }),
            same_range(r.range, self.range),
    {
        Args {
            input: self.input.clone(),
            threads: self.threads,
            chunk: self.chunk,
            region: self.region,
            strings_only: self.strings_only,
            hex_only: self.hex_only,
            min_string: self.min_string,
            recursive: self.recursive,
            interactive: self.interactive,
            page_size: self.page_size,
            output: match &self.output {
                Some(p) => Some(p.clone()),
                None => None,
            },
            json: self.json,
            start_offset: self.start_offset,
            end_offset: self.end_offset,
            range: match &self.range {
                Some(v) => Some(v.clone()),
                None => None,
            },
        }
    }
}

/// The range that is asked for, before it is held against a file's size.
pub open spec fn asked_range(args: Args, file_size: int) -> (int, int) {
    if args.range matches Some(r) && r@.len() == 2 {
        (args.range->Some_0@[0] as int, args.range->Some_0@[1] as int)
    } else {
        (
            match args.start_offset {
                Some(n) => n as int,
                None => 0,
            },
            match args.end_offset {
                Some(n) => n as int,
                None => file_size,
            },
        )
    }
}

/// The range of a file that is scanned or shown: what is asked for, as far as the
/// file has it.
pub open spec fn range_of(args: Args, file_size: int) -> (int, int) {
    let (from, to) = asked_range(args, file_size);
    let start = smaller(from, file_size);
    (start, larger(smaller(to, file_size), start))
}

/// What is wrong with the settings, if anything is.
pub open spec fn complaint(args: Args) -> Option<Seq<char>> {
    if args.chunk == 0 || args.region == 0 || args.min_string == 0 {
        Some("chunk, region, and min-string must be greater than zero"@)
    } else if args.page_size == 0 {
        Some("page-size must be greater than zero"@)
    } else if args.strings_only && args.hex_only {
        Some("--strings-only and --hex-only cannot be used together"@)
    } else {
        None
    }
}

/// How many bytes a region has.
pub open spec fn region_size_of(args: Args) -> int {
    larger(args.region as int, args.chunk as int)
}

/// Law: a region has as many bytes as asked for, or as many as are read at once if those are
/// more.
pub proof fn law_region_has_room_for_a_read(args: Args)
    ensures
        args.region >= args.chunk ==> region_size_of(args) == args.region,
        args.region < args.chunk ==> region_size_of(args) == args.chunk,
{
}

impl Args {
    /// Refuses settings that make no sense.
    pub fn validate(&self) -> (r: Result<(), String>)
        ensures
            match r {
                Ok(_) => complaint(*self) is None,
                Err(m) => complaint(*self) == Some(m@),
            },
    {
        if self.chunk == 0 || self.region == 0 || self.min_string == 0 {
            return Err(
                String::from_str("chunk, region, and min-string must be greater than zero"),
            );
        }
        if self.page_size == 0 {
            return Err(String::from_str("page-size must be greater than zero"));
        }
        if self.strings_only && self.hex_only {
            return Err(
                String::from_str("--strings-only and --hex-only cannot be used together"),
            );
        }
        Ok(())
    }

    /// The range of a file that is scanned or shown.
    pub fn range_in(&self, file_size: u64) -> (r: (u64, u64))
        ensures
            (r.0 as int, r.1 as int) == range_of(*self, file_size as int),
            r.0 <= r.1 <= file_size,
    {
        let mut from: u64 = match self.start_offset {
            Some(n) => n,
            None => 0,
        };
        let mut to: u64 = match self.end_offset {
            Some(n) => n,
            None => file_size,
        };
        if let Some(r) = &self.range {
            if r.len() == 2 {
                from = r[0];
                to = r[1];
            }
        }
        let start: u64 = min_u64(from, file_size);
        (start, max_u64(min_u64(to, file_size), start))
    }

    /// How many bytes a region has: no fewer than are read at once.
    pub fn region_size(&self) -> (n: u64)
        ensures
            n == region_size_of(*self),
    {
        max_u64(self.region, self.chunk as u64)
    }
}

/// Law: the range lies in the file, and is what was asked for wherever the file has
/// that.
pub proof fn law_range_lies_in_the_file(args: Args, file_size: int)
    requires
        0 <= file_size,
    ensures
        0 <= range_of(args, file_size).0 <= range_of(args, file_size).1 <= file_size,
        asked_range(args, file_size).0 <= asked_range(args, file_size).1 <= file_size
            ==> range_of(args, file_size) == asked_range(args, file_size),
{
}

/// The offset text that is left of `s`: without surrounding white space, and
/// without the separators `_` and `,`.
pub open spec fn clean_offset(s: Seq<char>) -> Seq<char> {
    trim(s).filter(|c: char| c != '_' && c != ',')
}

/// Whether a text begins with the hexadecimal prefix.
pub open spec fn has_hex_prefix(s: Seq<char>) -> bool {
    s.len() >= 2 && s[0] == '0' && (s[1] == 'x' || s[1] == 'X')
}

/// What an offset text means once it is clean.
pub open spec fn read_offset(clean: Seq<char>) -> Result<nat, NumberFault> {
    if has_hex_prefix(clean) {
        read_number(clean.skip(2), 16, u64::MAX as nat)
    } else {
        read_number(clean, 10, u64::MAX as nat)
    }
}

/// What is said of an offset text that has a fault.
pub open spec fn offset_complaint(clean: Seq<char>, fault: NumberFault) -> Seq<char> {
    if has_hex_prefix(clean) {
        "invalid hex offset '"@ + clean + "': "@ + fault.words()
    } else {
        "invalid offset '"@ + clean + "': "@ + fault.words()
    }
}

/// The offset text without white space around it and without separators.
pub fn clean_offset_chars(s: &str) -> (r: Vec<char>)
    ensures
        r@ == clean_offset(s@),
{
    let v = trim_chars(&chars_of(s));
    let ghost p = |c: char| c != '_' && c != ',';
    let mut r: Vec<char> = Vec::new();
    let mut i: usize = 0;
    proof {
        reveal(Seq::filter);
    }
    while i < v.len()
        invariant
            i <= v.len(),
            p == |c: char| c != '_' && c != ',',
            r@ == v@.take(i as int).filter(p),
        decreases v.len() - i,
    {
        assert(v@.take(i + 1).drop_last() == v@.take(i as int));
        proof {
            reveal(Seq::filter);
        }
        if v[i] != '_' && v[i] != ',' {
            r.push(v[i]);
        }
        i += 1;
    }
    assert(v@.take(v.len() as int) == v@);
    r
}

/// Whether a text begins with the hexadecimal prefix.
pub fn hex_prefixed(v: &Vec<char>) -> (r: bool)
    ensures
        r == has_hex_prefix(v@),
{
    v.len() >= 2 && v[0] == '0' && (v[1] == 'x' || v[1] == 'X')
}

/// Reads a clean offset text.
pub fn parse_clean_offset(v: &Vec<char>) -> (r: Result<u64, NumberFault>)
    ensures
        match r {
            Ok(n) => read_offset(v@) == Ok::<nat, NumberFault>(n as nat),
            Err(e) => read_offset(v@) == Err::<nat, NumberFault>(e),
        },
{
    if hex_prefixed(v) {
        assert(v@.skip(2) == v@.subrange(2, v@.len() as int));
        let body = slice_chars(v, 2, v.len());
        parse_number(&body, 16, u64::MAX)
    } else {
        parse_number(v, 10, u64::MAX)
    }
}

/// Reads an offset: hexadecimal after `0x`, decimal otherwise.
pub fn parse_offset(s: &str) -> (r: Result<u64, String>)
    ensures
        match r {
            Ok(n) => read_offset(clean_offset(s@)) == Ok::<nat, NumberFault>(n as nat),
            Err(m) => read_offset(clean_offset(s@)) matches Err(e) && m@ == offset_complaint(
                clean_offset(s@),
                e,
            ),
        },
{
    let v = clean_offset_chars(s);
    match parse_clean_offset(&v) {
        Ok(n) => Ok(n),
        Err(e) => {
            let mut m = String::new();
            if hex_prefixed(&v) {
                m.append("invalid hex offset '");
            } else {
                m.append("invalid offset '");
            }
            push_chars(&mut m, &v);
            m.append("': ");
            m.append(e.message().as_str());
            Err(m)
        },
    }
}

/// Whether a character is none of the separators.
spec fn no_separator(c: char) -> bool {
    c != '_' && c != ','
}

proof fn lemma_nothing_to_clean(s: Seq<char>)
    requires
        forall|i: int| 0 <= i < s.len() ==> no_separator(#[trigger] s[i]),
    ensures
        s.filter(|c: char| c != '_' && c != ',') == s,
    decreases s.len(),
{
    reveal(Seq::filter);
    if s.len() > 0 {
        lemma_nothing_to_clean(s.drop_last());
        assert(no_separator(s[s.len() - 1]));
        assert(s == s.drop_last().push(s.last()));
    }
}

/// Commas between groups of digits are cleaned away.
proof fn lemma_groups_are_cleaned(s: Seq<char>)
    requires
        forall|i: int| 0 <= i < s.len() ==> is_upper_hex(#[trigger] s[i]),
    ensures
        grouped(s).filter(|c: char| c != '_' && c != ',') == s,
        s.len() > 0 ==> grouped(s).len() > 0 && grouped(s)[0] == s[0] && grouped(s).last()
            == s.last(),
    decreases s.len(),
{
    let p = |c: char| c != '_' && c != ',';
    if s.len() <= 3 {
        lemma_nothing_to_clean(s);
    } else {
        let front = s.take(s.len() - 3);
        let back = s.skip(s.len() - 3);
        lemma_groups_are_cleaned(front);
        lemma_nothing_to_clean(back);
        reveal(Seq::filter);
        let g = grouped(front).push(',');
        assert(g.drop_last() == grouped(front));
        assert(g.filter(p) == grouped(front).filter(p));
        Seq::filter_distributes_over_add(g, back, p);
        assert(front + back == s);
    }
}

/// Law: an offset reads back from the way the viewer writes it in decimal, with
/// commas.
pub proof fn law_decimal_offset_reads_back(n: u64)
    ensures
        read_offset(clean_offset(with_commas(n as nat))) == Ok::<nat, NumberFault>(n as nat),
        read_offset(clean_offset(decimal(n as nat))) == Ok::<nat, NumberFault>(n as nat),
{
    let s = decimal(n as nat);
    lemma_digits_are_digits(n as nat, 10);
    lemma_groups_are_cleaned(s);
    lemma_nothing_to_clean(s);
    lemma_trim_keeps(grouped(s));
    lemma_trim_keeps(s);
    law_digits_read_back(n as nat, 0, 10, u64::MAX as nat);
}

/// Law: an offset reads back from the way the viewer writes it in hexadecimal, with
/// whatever number of zeros in front.
pub proof fn law_hex_offset_reads_back(n: u64, width: nat)
    ensures
        read_offset(clean_offset("0x"@ + hex_padded(n as nat, width))) == Ok::<nat, NumberFault>(
            n as nat,
        ),
{
    lemma_padded_hex(n, width);
    lemma_prefixed_digits(hex_padded(n as nat, width));
}

/// A number in hexadecimal has digits alone, and reads back.
pub proof fn lemma_padded_hex(n: u64, width: nat)
    ensures
        ({
            let body = hex_padded(n as nat, width);
            &&& body.len() > 0
            &&& forall|i: int| 0 <= i < body.len() ==> is_upper_hex(#[trigger] body[i])
            &&& read_number(body, 16, u64::MAX as nat) == Ok::<nat, NumberFault>(n as nat)
        }),
{
    let s = digits(n as nat, 16);
    let body = hex_padded(n as nat, width);
    let zeros = if s.len() < width {
        (width - s.len()) as nat
    } else {
        0
    };
    lemma_digits_are_digits(n as nat, 16);
    law_digits_read_back(n as nat, zeros, 16, u64::MAX as nat);
    assert(copies('0', zeros) + s == body);
    assert forall|i: int| 0 <= i < body.len() implies is_upper_hex(#[trigger] body[i]) by {
        if i >= zeros {
            assert(body[i] == s[i - zeros]);
        }
    }
    assert(body[0] != '+');
}

/// Digits behind the hexadecimal prefix are clean, and are what is read.
proof fn lemma_prefixed_digits(body: Seq<char>)
    requires
        body.len() > 0,
        forall|i: int| 0 <= i < body.len() ==> is_upper_hex(#[trigger] body[i]),
    ensures
        clean_offset("0x"@ + body) == "0x"@ + body,
        read_offset("0x"@ + body) == read_number(body, 16, u64::MAX as nat),
{
    reveal_strlit("0x");
    let whole = "0x"@ + body;
    assert(whole.last() == body[body.len() - 1]);
    lemma_trim_keeps(whole);
    assert forall|i: int| 0 <= i < whole.len() implies no_separator(#[trigger] whole[i]) by {
        if i >= 2 {
            assert(whole[i] == body[i - 2]);
        }
    }
    lemma_nothing_to_clean(whole);
    assert(whole.skip(2) == body);
}

/// Law: a byte is in the range if and only if the file has it and it was asked for: by the
/// range, if that is two offsets, else by the first offset and the one behind the last, as
/// far as they are given.
pub proof fn law_range_is_what_was_asked_for(args: Args, file_size: int, p: int)
    requires
        0 <= file_size,
    ensures
        ({
            let (start, end) = range_of(args, file_size);
            let by_range = args.range is Some && args.range->Some_0@.len() == 2;
            let asked = if by_range {
                args.range->Some_0@[0] <= p < args.range->Some_0@[1]
            } else {
                &&& args.start_offset is Some ==> args.start_offset->Some_0 <= p
                &&& args.end_offset is Some ==> p < args.end_offset->Some_0
            };
            start <= p < end <==> 0 <= p < file_size && asked
        }),
{
}

/// Law: settings are refused if and only if a size is zero or strings alone and bytes alone are
/// both asked for, and what is said names what is wrong.
pub proof fn law_what_is_refused(args: Args)
    ensures
        complaint(args) is None <==> args.chunk > 0 && args.region > 0 && args.min_string > 0
            && args.page_size > 0 && !(args.strings_only && args.hex_only),
        (args.chunk == 0 || args.region == 0 || args.min_string == 0) ==> complaint(args) == Some(
            "chunk, region, and min-string must be greater than zero"@,
        ),
        args.chunk > 0 && args.region > 0 && args.min_string > 0 && args.page_size == 0
            ==> complaint(args) == Some("page-size must be greater than zero"@),
        args.chunk > 0 && args.region > 0 && args.min_string > 0 && args.page_size > 0
            && args.strings_only && args.hex_only ==> complaint(args) == Some(
            "--strings-only and --hex-only cannot be used together"@,
        ),
{
}

/// Law: white space around an offset does not matter.
pub proof fn law_space_around_an_offset(before: Seq<char>, s: Seq<char>, behind: Seq<char>)
    requires
        all_plain_space(before),
        all_plain_space(behind),
        bare(s),
    ensures
        clean_offset(before + s + behind) == clean_offset(s),
{
    law_trim_leaves_the_text(before, s, behind);
    law_trim_leaves_the_text(Seq::empty(), s, Seq::empty());
    assert(Seq::<char>::empty() + s + Seq::<char>::empty() == s);
}

/// Law: a separator inside an offset does not matter, wherever it stands and whatever stands
/// around it; of an offset without separators nothing is taken.
pub proof fn law_separators_do_not_matter(a: Seq<char>, c: char, b: Seq<char>)
    requires
        c == '_' || c == ',',
        a.len() > 0 && b.len() > 0,
        bare(a) && bare(b),
    ensures
        clean_offset(a + seq![c] + b) == clean_offset(a + b),
        (forall|i: int| 0 <= i < a.len() ==> #[trigger] a[i] != '_' && a[i] != ',')
            ==> clean_offset(a) == a,
{
    let p = |c: char| c != '_' && c != ',';
    let one = seq![c];
    let with = a + one + b;
    let without = a + b;
    let none = Seq::<char>::empty();
    assert(none + with + none == with && none + without + none == without && none + a + none == a);
    assert(with.last() == b.last() && without.last() == b.last());
    assert(with[0] == a[0] && without[0] == a[0]);
    law_trim_leaves_the_text(none, with, none);
    law_trim_leaves_the_text(none, without, none);
    law_trim_leaves_the_text(none, a, none);
    Seq::filter_distributes_over_add(a + one, b, p);
    Seq::filter_distributes_over_add(a, one, p);
    Seq::filter_distributes_over_add(a, b, p);
    assert(one.filter(p) == none) by {
        reveal(Seq::filter);
        assert(one.drop_last() == none);
    }
    assert(a.filter(p) + none == a.filter(p));
    if forall|i: int| 0 <= i < a.len() ==> #[trigger] a[i] != '_' && a[i] != ',' {
        assert forall|i: int| 0 <= i < a.len() implies no_separator(#[trigger] a[i]) by {}
        lemma_nothing_to_clean(a);
    }
}

/// Law: behind `0x` or `0X` an offset is read in base sixteen, in upper or lower case, else in
/// base ten; it is what its digits are worth, and refused if that is above what 64 bits hold.
pub proof fn law_offset_is_what_its_digits_are_worth(s: Seq<char>, x: char)
    requires
        s.len() > 0,
        x == 'x' || x == 'X',
    ensures
        faces(s, 16) && meaning(s, 16) <= u64::MAX ==> read_offset(seq!['0', x] + s) == Ok::<
            nat,
            NumberFault,
        >(meaning(s, 16) as nat),
        faces(s, 16) && meaning(s, 16) > u64::MAX ==> read_offset(seq!['0', x] + s) == Err::<
            nat,
            NumberFault,
        >(NumberFault::TooLarge),
        !faces(s, 16) && s[0] != '+' ==> read_offset(seq!['0', x] + s) is Err,
        faces(s, 10) && meaning(s, 10) <= u64::MAX ==> read_offset(s) == Ok::<nat, NumberFault>(
            meaning(s, 10) as nat,
        ),
        faces(s, 10) && meaning(s, 10) > u64::MAX ==> read_offset(s) == Err::<nat, NumberFault>(
            NumberFault::TooLarge,
        ),
{
    let whole = seq!['0', x] + s;
    assert(whole.skip(2) == s);
    assert(whole[0] == '0' && whole[1] == x);
    if s[0] != '+' {
        law_number_is_what_its_digits_are_worth(s, 16, u64::MAX as nat);
        law_number_is_what_its_digits_are_worth(s, 10, u64::MAX as nat);
    } else {
        assert(face(s[0]) == -1);
    }
    if faces(s, 10) && s.len() >= 2 {
        assert(face(s[1]) >= 0);
    }
}

/// Law: what is said of an offset that cannot be read holds the offset and the fault.
pub proof fn law_complaint_holds_offset_and_fault(clean: Seq<char>, fault: NumberFault)
    ensures
        occurs_in("'"@ + clean + "': "@ + fault.words(), offset_complaint(clean, fault)),
{
    reveal_strlit("invalid hex offset '");
    reveal_strlit("invalid offset '");
    reveal_strlit("'");
    let needle = "'"@ + clean + "': "@ + fault.words();
    if has_hex_prefix(clean) {
        lemma_stands(offset_complaint(clean, fault), needle, 19);
    } else {
        lemma_stands(offset_complaint(clean, fault), needle, 15);
    }
}

} // verus!
