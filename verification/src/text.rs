//! Characters, digits and padding: what every label of the explorer is made of.
use vstd::arithmetic::power::{lemma_pow_positive, pow};
use vstd::prelude::*;
use vstd::string::{StrSliceExecFns, StringExecFns};

verus! {

/// `String::push` appends one character.
pub assume_specification[ String::push ](s: &mut String, c: char)
    ensures
        final(s)@ == old(s)@.push(c),
;

/// `String::pop` removes the last character and returns it, or returns `None`
/// from an empty string.
pub assume_specification[ String::pop ](s: &mut String) -> (last: Option<char>)
    ensures
        old(s)@.len() == 0 ==> last is None && final(s)@ == old(s)@,
        old(s)@.len() > 0 ==> last == Some(old(s)@.last()) && final(s)@ == old(s)@.drop_last(),
;

/// The characters of a string, in order.
pub fn chars_of(s: &str) -> (v: Vec<char>)
    ensures
        v@ == s@,
{
    let mut v: Vec<char> = Vec::new();
    for c in it: s.chars()
        invariant
            v@ == it.seq().take(it.index()),
            it.seq() == s@,
    {
        v.push(c);
    }
    v
}

/// The string made of the given characters.
pub fn string_of(v: &Vec<char>) -> (s: String)
    ensures
        s@ == v@,
{
    let mut s = String::new();
    let mut i: usize = 0;
    while i < v.len()
        invariant
            i <= v.len(),
            s@ == v@.take(i as int),
        decreases v.len() - i,
    {
        s.push(v[i]);
        i += 1;
    }
    s
}

/// The character that stands for a digit below sixteen, letters in upper case.
pub open spec fn digit_char(d: nat) -> char {
    if d < 10 {
        ('0' as nat + d) as char
    } else {
        ('A' as nat + (d - 10) as nat) as char
    }
}

/// A number written in a base from two to sixteen, without leading zeros.
pub open spec fn digits(n: nat, base: nat) -> Seq<char>
    decreases n,
{
    if n < base || base < 2 {
        seq![digit_char(n)]
    } else {
        proof {
            assert(n / base < n) by (nonlinear_arith)
                requires
                    2 <= base <= n,
            ;
        }
        digits(n / base, base).push(digit_char(n % base))
    }
}

/// Whether a character is an upper case hexadecimal digit.
pub open spec fn is_upper_hex(c: char) -> bool {
    '0' <= c <= '9' || 'A' <= c <= 'F'
}

/// A written number has a digit, and digits alone.
pub proof fn lemma_digits_are_digits(n: nat, base: nat)
    requires
        2 <= base <= 16,
    ensures
        digits(n, base).len() > 0,
        forall|i: int| 0 <= i < digits(n, base).len() ==> is_upper_hex(#[trigger] digits(n, base)[i]),
        base <= 10 ==> forall|i: int|
            0 <= i < digits(n, base).len() ==> '0' <= #[trigger] digits(n, base)[i] <= '9',
    decreases n,
{
    if n >= base {
        assert(n / base < n && n % base < base) by (nonlinear_arith)
            requires
                2 <= base <= n,
        ;
        lemma_digits_are_digits(n / base, base);
    }
}

/// A number below a power of the base has no more digits than that.
pub proof fn lemma_digits_fit(n: nat, base: nat, k: nat)
    requires
        2 <= base <= 16,
        k >= 1,
        n < pow(base as int, k),
    ensures
        digits(n, base).len() <= k,
    decreases k,
{
    reveal(pow);
    if n >= base {
        if k == 1 {
            assert(pow(base as int, 0) == 1);
            assert(pow(base as int, 1) == base * pow(base as int, 0));
            assert(base * 1 == base) by (nonlinear_arith);
            assert(false);
        }
        let less = (k - 1) as nat;
        let p = pow(base as int, less);
        assert(pow(base as int, k) == base * p);
        assert(n / base < p) by (nonlinear_arith)
            requires
                n < base * p,
                base >= 2,
        ;
        lemma_digits_fit(n / base, base, less);
    }
}

/// A number that is no lower than a power of the base has more digits than that.
pub proof fn lemma_digits_need(n: nat, base: nat, k: nat)
    requires
        2 <= base <= 16,
        n >= pow(base as int, k),
    ensures
        digits(n, base).len() > k,
    decreases k,
{
    reveal(pow);
    if k > 0 {
        let less = (k - 1) as nat;
        let p = pow(base as int, less);
        assert(pow(base as int, k) == base * p);
        lemma_pow_positive(base as int, less);
        assert(n >= base) by (nonlinear_arith)
            requires
                n >= base * p,
                p >= 1,
                base >= 2,
        ;
        assert(n / base >= p) by (nonlinear_arith)
            requires
                n >= base * p,
                base >= 2,
        ;
        lemma_digits_need(n / base, base, less);
    } else {
        lemma_digits_are_digits(n, base);
    }
}

/// `n` copies of one character.
pub open spec fn copies(c: char, n: nat) -> Seq<char> {
    Seq::new(n, |i: int| c)
}

/// A text filled up on its left to at least `width` characters.
pub open spec fn pad_left(s: Seq<char>, width: nat, fill: char) -> Seq<char> {
    if s.len() < width {
        copies(fill, (width - s.len()) as nat) + s
    } else {
        s
    }
}

/// A text filled up with spaces on its right to at least `width` characters.
pub open spec fn pad_right(s: Seq<char>, width: nat) -> Seq<char> {
    if s.len() < width {
        s + copies(' ', (width - s.len()) as nat)
    } else {
        s
    }
}

/// A number in decimal.
pub open spec fn decimal(n: nat) -> Seq<char> {
    digits(n, 10)
}

/// A number in upper case hexadecimal, filled up with zeros to `width` digits.
pub open spec fn hex_padded(n: nat, width: nat) -> Seq<char> {
    pad_left(digits(n, 16), width, '0')
}

fn digit_char_of(d: u128) -> (c: char)
    requires
        d < 16,
    ensures
        c == digit_char(d as nat),
{
    if d < 10 {
        (48u8 + d as u8) as char
    } else {
        (65u8 + (d - 10) as u8) as char
    }
}

fn digits_of(n: u128, base: u128) -> (v: Vec<char>)
    requires
        2 <= base <= 16,
    ensures
        v@ == digits(n as nat, base as nat),
    decreases n,
{
    if n < base {
        let mut v: Vec<char> = Vec::new();
        v.push(digit_char_of(n));
        v
    } else {
        proof {
            assert(n / base < n) by (nonlinear_arith)
                requires
                    2 <= base,
                    base <= n,
            ;
            assert(n % base < base) by (nonlinear_arith)
                requires
                    2 <= base,
            ;
        }
        let mut v = digits_of(n / base, base);
        v.push(digit_char_of(n % base));
        v
    }
}

/// Appends all characters of `v`.
pub fn push_chars(out: &mut String, v: &Vec<char>)
    ensures
        final(out)@ == old(out)@ + v@,
{
    let mut i: usize = 0;
    while i < v.len()
        invariant
            i <= v.len(),
            out@ == old(out)@ + v@.take(i as int),
        decreases v.len() - i,
    {
        out.push(v[i]);
        i += 1;
    }
}

/// Appends `n` copies of a character.
pub fn push_copies(out: &mut String, c: char, n: usize)
    ensures
        final(out)@ == old(out)@ + copies(c, n as nat),
{
    let mut i: usize = 0;
    while i < n
        invariant
            i <= n,
            out@ == old(out)@ + copies(c, i as nat),
        decreases n - i,
    {
        out.push(c);
        i += 1;
    }
}

/// Appends a number in decimal.
pub fn push_decimal(out: &mut String, n: u64)
    ensures
        final(out)@ == old(out)@ + decimal(n as nat),
{
    let v = digits_of(n as u128, 10);
    push_chars(out, &v);
}

/// Appends the number behind `n` in decimal.
pub fn push_successor(out: &mut String, n: u64)
    ensures
        final(out)@ == old(out)@ + decimal((n + 1) as nat),
{
    let v = digits_of(n as u128 + 1, 10);
    push_chars(out, &v);
}

/// Appends a number in decimal, filled up with spaces on the left.
pub fn push_decimal_right(out: &mut String, n: u64, width: usize)
    ensures
        final(out)@ == old(out)@ + pad_left(decimal(n as nat), width as nat, ' '),
{
    let v = digits_of(n as u128, 10);
    if v.len() < width {
        push_copies(out, ' ', width - v.len());
    }
    push_chars(out, &v);
}

/// Appends a number in hexadecimal, filled up with zeros on the left.
pub fn push_hex(out: &mut String, n: u64, width: usize)
    ensures
        final(out)@ == old(out)@ + hex_padded(n as nat, width as nat),
{
    let v = digits_of(n as u128, 16);
    if v.len() < width {
        push_copies(out, '0', width - v.len());
    }
    push_chars(out, &v);
}

/// Appends a text, filled up with spaces on its left.
pub fn push_right_aligned(out: &mut String, s: &str, width: usize)
    ensures
        final(out)@ == old(out)@ + pad_left(s@, width as nat, ' '),
{
    let n: usize = s.unicode_len();
    if n < width {
        push_copies(out, ' ', width - n);
    }
    out.append(s);
}

/// Appends a text, filled up with spaces on its right.
pub fn push_left_aligned(out: &mut String, s: &str, width: usize)
    ensures
        final(out)@ == old(out)@ + pad_right(s@, width as nat),
{
    let n: usize = s.unicode_len();
    out.append(s);
    if n < width {
        push_copies(out, ' ', width - n);
    }
}

/// The characters with the Unicode property `White_Space`.
pub open spec fn is_space(c: char) -> bool {
    ||| '\u{9}' <= c <= '\u{d}'
    ||| c == ' '
    ||| c == '\u{85}'
    ||| c == '\u{a0}'
    ||| c == '\u{1680}'
    ||| '\u{2000}' <= c <= '\u{200a}'
    ||| c == '\u{2028}'
    ||| c == '\u{2029}'
    ||| c == '\u{202f}'
    ||| c == '\u{205f}'
    ||| c == '\u{3000}'
}

/// Whether a character is white space.
pub fn is_space_char(c: char) -> (r: bool)
    ensures
        r == is_space(c),
{
    (c >= '\u{9}' && c <= '\u{d}') || c == ' ' || c == '\u{85}' || c == '\u{a0}' || c == '\u{1680}'
        || (c >= '\u{2000}' && c <= '\u{200a}') || c == '\u{2028}' || c == '\u{2029}' || c
        == '\u{202f}' || c == '\u{205f}' || c == '\u{3000}'
}

/// A text without the leading characters that `p` holds of.
pub open spec fn drop_leading(s: Seq<char>, p: spec_fn(char) -> bool) -> Seq<char>
    decreases s.len(),
{
    if s.len() > 0 && p(s[0]) {
        drop_leading(s.skip(1), p)
    } else {
        s
    }
}

/// A text without the trailing characters that `p` holds of.
pub open spec fn drop_trailing(s: Seq<char>, p: spec_fn(char) -> bool) -> Seq<char>
    decreases s.len(),
{
    if s.len() > 0 && p(s.last()) {
        drop_trailing(s.drop_last(), p)
    } else {
        s
    }
}

/// A text without leading and trailing white space.
pub open spec fn trim(s: Seq<char>) -> Seq<char> {
    drop_trailing(drop_leading(s, |c: char| is_space(c)), |c: char| is_space(c))
}

/// A text that neither begins nor ends with white space is left as it is.
pub proof fn lemma_trim_keeps(s: Seq<char>)
    requires
        s.len() > 0,
        !is_space(s[0]),
        !is_space(s.last()),
    ensures
        trim(s) == s,
{
}

/// A text without its leading number signs.
pub open spec fn drop_hashes(s: Seq<char>) -> Seq<char> {
    drop_leading(s, |c: char| c == '#')
}

/// The characters from `from` up to but without `to`.
pub fn slice_chars(v: &Vec<char>, from: usize, to: usize) -> (r: Vec<char>)
    requires
        from <= to <= v.len(),
    ensures
        r@ == v@.subrange(from as int, to as int),
{
    let mut r: Vec<char> = Vec::new();
    let mut i: usize = from;
    while i < to
        invariant
            from <= i <= to <= v.len(),
            r@ == v@.subrange(from as int, i as int),
        decreases to - i,
    {
        r.push(v[i]);
        i += 1;
    }
    r
}

/// A text without leading and trailing white space.
pub fn trim_chars(v: &Vec<char>) -> (r: Vec<char>)
    ensures
        r@ == trim(v@),
{
    let ghost p = |c: char| is_space(c);
    let mut from: usize = 0;
    assert(v@.skip(0) == v@);
    while from < v.len() && is_space_char(v[from])
        invariant
            from <= v.len(),
            p == |c: char| is_space(c),
            drop_leading(v@, p) == drop_leading(v@.skip(from as int), p),
        decreases v.len() - from,
    {
        assert(v@.skip(from as int).skip(1) == v@.skip(from + 1));
        from += 1;
    }
    let ghost tail = v@.skip(from as int);
    assert(drop_leading(v@, p) == tail);
    let mut to: usize = v.len();
    assert(v@.subrange(from as int, to as int) == tail);
    while from < to && is_space_char(v[to - 1])
        invariant
            from <= to <= v.len(),
            p == |c: char| is_space(c),
            drop_trailing(tail, p) == drop_trailing(v@.subrange(from as int, to as int), p),
        decreases to,
    {
        assert(v@.subrange(from as int, to as int).drop_last() == v@.subrange(
            from as int,
            to - 1,
        ));
        to -= 1;
    }
    slice_chars(v, from, to)
}

/// A text without its leading number signs.
pub fn drop_hash_chars(v: &Vec<char>) -> (r: Vec<char>)
    ensures
        r@ == drop_hashes(v@),
{
    let ghost p = |c: char| c == '#';
    let mut from: usize = 0;
    assert(v@.skip(0) == v@);
    while from < v.len() && v[from] == '#'
        invariant
            from <= v.len(),
            p == |c: char| c == '#',
            drop_leading(v@, p) == drop_leading(v@.skip(from as int), p),
        decreases v.len() - from,
    {
        assert(v@.skip(from as int).skip(1) == v@.skip(from + 1));
        from += 1;
    }
    assert(v@.subrange(from as int, v.len() as int) == v@.skip(from as int));
    slice_chars(v, from, v.len())
}

/// Whether `needle` stands somewhere in `hay`.
pub open spec fn occurs_in(needle: Seq<char>, hay: Seq<char>) -> bool {
    exists|i: int| occurs_at(needle, hay, i)
}

/// A text that is found at some place stands in the whole.
pub proof fn lemma_stands(hay: Seq<char>, needle: Seq<char>, at: int)
    requires
        0 <= at <= hay.len() - needle.len(),
        forall|k: int| 0 <= k < needle.len() ==> hay[at + k] == #[trigger] needle[k],
    ensures
        occurs_in(needle, hay),
{
    assert(hay.subrange(at, at + needle.len()) == needle);
    assert(occurs_at(needle, hay, at));
}

/// Whether `needle` stands in `hay` at position `i`.
pub open spec fn occurs_at(needle: Seq<char>, hay: Seq<char>, i: int) -> bool {
    &&& 0 <= i <= hay.len() - needle.len()
    &&& hay.subrange(i, i + needle.len()) == needle
}

/// Whether `needle` stands somewhere in `hay`.
pub fn contains_chars(hay: &Vec<char>, needle: &Vec<char>) -> (r: bool)
    ensures
        r == occurs_in(needle@, hay@),
{
    if needle.len() > hay.len() {
        return false;
    }
    let last: usize = hay.len() - needle.len();
    let mut i: usize = 0;
    while i <= last
        invariant
            last == hay.len() - needle.len(),
            i <= last + 1,
            forall|k: int| 0 <= k < i ==> !occurs_at(needle@, hay@, k),
        decreases last + 1 - i,
    {
        let mut j: usize = 0;
        while j < needle.len() && hay[i + j] == needle[j]
            invariant
                i <= last,
                last == hay.len() - needle.len(),
                j <= needle.len(),
                forall|k: int| 0 <= k < j ==> hay@[i + k] == needle@[k],
            decreases needle.len() - j,
        {
            j += 1;
        }
        if j == needle.len() {
            assert(hay@.subrange(i as int, i + needle.len()) == needle@);
            assert(occurs_at(needle@, hay@, i as int));
            return true;
        }
        assert(!occurs_at(needle@, hay@, i as int)) by {
            if occurs_at(needle@, hay@, i as int) {
                assert(hay@.subrange(i as int, i + needle.len())[j as int] == needle@[j as int]);
            }
        }
        if i == last {
            return false;
        }
        i += 1;
    }
    false
}

/// The lower case form of a text, by Unicode's case mapping.
pub uninterp spec fn lowercase(s: Seq<char>) -> Seq<char>;

/// The lower case form of an ASCII character.
pub open spec fn ascii_lower(c: char) -> char {
    if 'A' <= c <= 'Z' {
        (c as nat + 32) as char
    } else {
        c
    }
}

/// Whether all characters are ASCII.
pub open spec fn all_ascii(s: Seq<char>) -> bool {
    forall|i: int| 0 <= i < s.len() ==> (#[trigger] s[i] as nat) < 128
}

/// `str::to_lowercase` maps a text to its lower case form; on ASCII text it
/// maps the letters `A` to `Z` and keeps every other character.
#[verifier::external_body]
pub(crate) fn to_lowercase(s: &str) -> (r: String)
    ensures
        r@ == lowercase(s@),
        all_ascii(s@) ==> r@ == s@.map_values(|c: char| ascii_lower(c)),
{
    s.to_lowercase()
}

/// Whether `needle` is met in `hay` from `p` on, letter by letter.
pub open spec fn met_at(needle: Seq<char>, hay: Seq<char>, p: int) -> bool {
    &&& 0 <= p <= hay.len() - needle.len()
    &&& forall|k: int| 0 <= k < needle.len() ==> hay[p + k] == #[trigger] needle[k]
}

/// Law: a text stands in another if and only if it is met there letter by letter.
pub proof fn law_occurrence_is_letter_by_letter(needle: Seq<char>, hay: Seq<char>)
    ensures
        occurs_in(needle, hay) <==> exists|p: int| met_at(needle, hay, p),
{
    if occurs_in(needle, hay) {
        let p = choose|p: int| occurs_at(needle, hay, p);
        assert forall|k: int| 0 <= k < needle.len() implies hay[p + k] == #[trigger] needle[k] by {
            assert(hay.subrange(p, p + needle.len())[k] == hay[p + k]);
        }
        assert(met_at(needle, hay, p));
    }
    if exists|p: int| met_at(needle, hay, p) {
        let p = choose|p: int| met_at(needle, hay, p);
        lemma_stands(hay, needle, p);
    }
}

/// Law: filling up on the left keeps the text at the right end, puts the filling in front of
/// it and makes it as wide as asked for.
pub proof fn law_fill_is_in_front(s: Seq<char>, width: nat, fill: char)
    ensures
        ({
            let p = pad_left(s, width, fill);
            &&& p.len() == (if s.len() < width {
                width
            } else {
                s.len()
            })
            &&& forall|i: int| 0 <= i < s.len() ==> p[p.len() - s.len() + i] == #[trigger] s[i]
            &&& forall|i: int| 0 <= i < p.len() - s.len() ==> #[trigger] p[i] == fill
        }),
{
}

/// Law: filling up on the right keeps the text at the left end, puts spaces behind it and
/// makes it as wide as asked for.
pub proof fn law_spaces_are_behind(s: Seq<char>, width: nat)
    ensures
        ({
            let p = pad_right(s, width);
            &&& p.len() == (if s.len() < width {
                width
            } else {
                s.len()
            })
            &&& forall|i: int| 0 <= i < s.len() ==> p[i] == #[trigger] s[i]
            &&& forall|i: int| s.len() <= i < p.len() ==> #[trigger] p[i] == ' '
        }),
{
}

/// Whether a text is tabs, line ends and spaces.
pub open spec fn all_plain_space(s: Seq<char>) -> bool {
    forall|i: int| 0 <= i < s.len() ==> (9 <= (#[trigger] s[i]) as int <= 13 || s[i] as int == 32)
}

/// Whether a text begins and ends with a visible ASCII character, or is empty.
pub open spec fn bare(s: Seq<char>) -> bool {
    s.len() > 0 ==> 33 <= s[0] as int <= 126 && 33 <= s.last() as int <= 126
}

/// Law: of white space, a text and white space, trimming leaves the text.
pub proof fn law_trim_leaves_the_text(before: Seq<char>, s: Seq<char>, behind: Seq<char>)
    requires
        all_plain_space(before),
        all_plain_space(behind),
        bare(s),
    ensures
        trim(before + s + behind) == s,
{
    let p = |c: char| is_space(c);
    let t = before + s + behind;
    if s.len() == 0 {
        assert(t == before + behind);
        assert forall|i: int| 0 <= i < t.len() implies is_space(#[trigger] t[i]) by {
            if i < before.len() {
                assert(t[i] == before[i]);
            } else {
                assert(t[i] == behind[i - before.len()]);
            }
        }
        lemma_all_leading(t, Seq::empty(), p);
        assert(t + Seq::<char>::empty() == t);
        assert(trim(t) == Seq::<char>::empty());
    } else {
        let tail = s + behind;
        assert(before + tail == t);
        assert forall|i: int| 0 <= i < before.len() implies p(#[trigger] before[i]) by {}
        lemma_all_leading(before, tail, p);
        assert(tail[0] == s[0]);
        assert forall|i: int| 0 <= i < behind.len() implies p(#[trigger] behind[i]) by {}
        lemma_all_trailing(s, behind, p);
    }
}

proof fn lemma_all_leading(a: Seq<char>, s: Seq<char>, p: spec_fn(char) -> bool)
    requires
        forall|i: int| 0 <= i < a.len() ==> p(#[trigger] a[i]),
        s.len() > 0 ==> !p(s[0]),
    ensures
        drop_leading(a + s, p) == s,
    decreases a.len(),
{
    let t = a + s;
    if a.len() > 0 {
        assert(t[0] == a[0]);
        assert(t.skip(1) == a.skip(1) + s);
        lemma_all_leading(a.skip(1), s, p);
    } else {
        assert(t == s);
    }
}

proof fn lemma_all_trailing(s: Seq<char>, b: Seq<char>, p: spec_fn(char) -> bool)
    requires
        forall|i: int| 0 <= i < b.len() ==> p(#[trigger] b[i]),
        s.len() > 0 ==> !p(s.last()),
    ensures
        drop_trailing(s + b, p) == s,
    decreases b.len(),
{
    let t = s + b;
    if b.len() > 0 {
        assert(t.last() == b.last());
        assert(p(b[b.len() - 1]));
        assert(t.drop_last() == s + b.drop_last());
        lemma_all_trailing(s, b.drop_last(), p);
    } else {
        assert(t == s);
    }
}

/// Law: of number signs and a text that begins with none, the text is left.
pub proof fn law_hashes_are_dropped(n: nat, s: Seq<char>)
    requires
        s.len() > 0 ==> s[0] != '#',
    ensures
        drop_hashes(copies('#', n) + s) == s,
{
    lemma_all_leading(copies('#', n), s, |c: char| c == '#');
}

/// Law: which characters are white space, by their numbers.
pub proof fn law_what_white_space_is(c: char)
    ensures
        c as int <= 127 ==> (is_space(c) <==> 9 <= c as int <= 13 || c as int == 32),
        c as int > 127 ==> (is_space(c) <==> c as int == 133 || c as int == 160 || c as int == 5760
            || 8192 <= c as int <= 8202 || c as int == 8232 || c as int == 8233 || c as int == 8239
            || c as int == 8287 || c as int == 12288),
{
}

} // verus!
