//! JSON values as trees, how they are written, and that exactly what is written of objects
//! and arrays is recognised.
use crate::json::{
    after_blanks, after_digits, at, chars_end, closing, exponent_end, fraction_end, integer_end,
    is_blank, is_digit, is_structure, lemma_blanks, lemma_chars_end, lemma_digits, lemma_value_end,
    member_value, number_end, rest_end, scalar_end, string_end, value_end,
};
use crate::text::{decimal, lemma_digits_are_digits};
use vstd::prelude::*;

verus! {

/// A letter of a JSON string as it is written.
pub enum Letter {
    /// As itself.
    Plain(char),
    /// Behind a backslash.
    Escape(char),
    /// By four hexadecimal digits.
    Code(char, char, char, char),
}

/// A JSON number as it is written.
pub struct NumberParts {
    pub negative: bool,
    pub whole: Seq<char>,
    pub fraction: Option<Seq<char>>,
    /// The letter, the sign and the digits.
    pub exponent: Option<(char, Option<char>, Seq<char>)>,
}

/// What stands in front of a value: white space and, in an object, the member's name and
/// the colon with white space around it.
pub struct Head {
    pub before: Seq<char>,
    pub name: Seq<Letter>,
    pub after_name: Seq<char>,
    pub after_colon: Seq<char>,
}

/// A JSON value as it is written.
pub enum Json {
    Null,
    True,
    False,
    Number(NumberParts),
    Text(Seq<Letter>),
    /// An object or an array, with what stands in front of and behind each value, or the
    /// white space in it if there is none.
    Many {
        object: bool,
        heads: Seq<Head>,
        values: Seq<Json>,
        tails: Seq<Seq<char>>,
        blank: Seq<char>,
    },
}

/// Whether a text is white space.
pub open spec fn all_blank(s: Seq<char>) -> bool {
    forall|k: int|
        0 <= k < s.len() ==> (#[trigger] s[k] == ' ' || s[k] == '\t' || s[k] == '\n' || s[k]
            == '\r')
}

/// Whether a text is one decimal digit or more.
pub open spec fn all_digits(s: Seq<char>) -> bool {
    s.len() > 0 && forall|k: int| 0 <= k < s.len() ==> '0' <= #[trigger] s[k] <= '9'
}

/// Whether a character is a hexadecimal digit.
pub open spec fn hexadecimal(c: char) -> bool {
    ('0' <= c <= '9') || ('a' <= c <= 'f') || ('A' <= c <= 'F')
}

/// Whether a letter may stand in a string.
pub open spec fn fine_letter(l: Letter) -> bool {
    match l {
        Letter::Plain(c) => c >= ' ' && c != '"' && c != '\\',
        Letter::Escape(c) => c == '"' || c == '\\' || c == '/' || c == 'b' || c == 'f' || c == 'n'
            || c == 'r' || c == 't',
        Letter::Code(a, b, c, d) => hexadecimal(a) && hexadecimal(b) && hexadecimal(c)
            && hexadecimal(d),
    }
}

/// Whether letters may stand in a string.
pub open spec fn fine_letters(ls: Seq<Letter>) -> bool {
    forall|k: int| 0 <= k < ls.len() ==> fine_letter(#[trigger] ls[k])
}

/// Whether the parts make up a number: no zero in front of other digits.
pub open spec fn fine_number(n: NumberParts) -> bool {
    &&& all_digits(n.whole)
    &&& n.whole.len() > 1 ==> n.whole[0] != '0'
    &&& n.fraction matches Some(f) ==> all_digits(f)
    &&& n.exponent matches Some(e) ==> (e.0 == 'e' || e.0 == 'E') && all_digits(e.2) && (
    e.1 matches Some(c) ==> c == '+' || c == '-')
}

/// Whether what stands in front of a value may stand there.
pub open spec fn fine_head(object: bool, h: Head) -> bool {
    &&& all_blank(h.before)
    &&& object ==> fine_letters(h.name) && all_blank(h.after_name) && all_blank(h.after_colon)
}

/// Whether a value is written as it may be.
pub open spec fn fine(j: Json) -> bool
    decreases j,
{
    match j {
        Json::Number(n) => fine_number(n),
        Json::Text(ls) => fine_letters(ls),
        Json::Many { object, heads, values, tails, blank } => {
            &&& heads.len() == values.len()
            &&& tails.len() == values.len()
            &&& all_blank(blank)
            &&& forall|k: int| 0 <= k < values.len() ==> fine_head(object, #[trigger] heads[k])
            &&& forall|k: int| 0 <= k < values.len() ==> fine(#[trigger] values[k])
            &&& forall|k: int| 0 <= k < values.len() ==> all_blank(#[trigger] tails[k])
        },
        _ => true,
    }
}

/// A letter as it is written.
pub open spec fn letter_text(l: Letter) -> Seq<char> {
    match l {
        Letter::Plain(c) => seq![c],
        Letter::Escape(c) => seq!['\\', c],
        Letter::Code(a, b, c, d) => seq!['\\', 'u', a, b, c, d],
    }
}

/// Letters as they are written.
pub open spec fn letters_text(ls: Seq<Letter>) -> Seq<char>
    decreases ls.len(),
{
    if ls.len() == 0 {
        Seq::empty()
    } else {
        letter_text(ls[0]) + letters_text(ls.skip(1))
    }
}

/// A string as it is written.
pub open spec fn quoted(ls: Seq<Letter>) -> Seq<char> {
    seq!['"'] + letters_text(ls) + seq!['"']
}

/// The fraction of a number as it is written.
pub open spec fn fraction_text(f: Option<Seq<char>>) -> Seq<char> {
    match f {
        Some(d) => seq!['.'] + d,
        None => Seq::empty(),
    }
}

/// The exponent of a number as it is written.
pub open spec fn exponent_text(e: Option<(char, Option<char>, Seq<char>)>) -> Seq<char> {
    match e {
        Some((mark, Some(sign), d)) => seq![mark, sign] + d,
        Some((mark, None, d)) => seq![mark] + d,
        None => Seq::empty(),
    }
}

/// A number as it is written.
pub open spec fn number_text(n: NumberParts) -> Seq<char> {
    (if n.negative {
        seq!['-']
    } else {
        Seq::empty()
    }) + n.whole + fraction_text(n.fraction) + exponent_text(n.exponent)
}

/// What stands in front of a value, as it is written.
pub open spec fn head_text(object: bool, h: Head) -> Seq<char> {
    if object {
        h.before + quoted(h.name) + h.after_name + seq![':'] + h.after_colon
    } else {
        h.before
    }
}

/// A value as it is written.
pub open spec fn written(j: Json) -> Seq<char>
    decreases j, 0int,
{
    match j {
        Json::Null => seq!['n', 'u', 'l', 'l'],
        Json::True => seq!['t', 'r', 'u', 'e'],
        Json::False => seq!['f', 'a', 'l', 's', 'e'],
        Json::Number(n) => number_text(n),
        Json::Text(ls) => quoted(ls),
        Json::Many { object, heads, values, tails, blank } => seq![
            if object {
                '{'
            } else {
                '['
            },
        ] + (if values.len() == 0 {
            blank
        } else {
            written_from(object, heads, values, tails, 0)
        }) + seq![
            if object {
                '}'
            } else {
                ']'
            },
        ],
    }
}

/// The values of an object or array from the `n`-th on, as they are written.
pub open spec fn written_from(
    object: bool,
    heads: Seq<Head>,
    values: Seq<Json>,
    tails: Seq<Seq<char>>,
    n: int,
) -> Seq<char>
    decreases values, values.len() - n,
{
    if !(0 <= n < values.len()) {
        Seq::empty()
    } else {
        head_text(object, heads[n]) + written(values[n]) + tails[n] + (if n + 1 < values.len() {
            seq![','] + written_from(object, heads, values, tails, n + 1)
        } else {
            Seq::empty()
        })
    }
}

/// Whether `t` stands in `s` from `i` on.
pub open spec fn stands(s: Seq<char>, i: int, t: Seq<char>) -> bool {
    &&& 0 <= i <= s.len() - t.len()
    &&& forall|k: int| 0 <= k < t.len() ==> s[i + k] == #[trigger] t[k]
}

proof fn lemma_stands_split(s: Seq<char>, i: int, a: Seq<char>, b: Seq<char>)
    ensures
        stands(s, i, a + b) <==> stands(s, i, a) && stands(s, i + a.len(), b),
{
    let t = a + b;
    if stands(s, i, t) {
        assert forall|k: int| 0 <= k < a.len() implies s[i + k] == #[trigger] a[k] by {
            assert(t[k] == a[k]);
        }
        assert forall|k: int| 0 <= k < b.len() implies s[i + a.len() + k] == #[trigger] b[k] by {
            assert(t[a.len() + k] == b[k]);
        }
    }
    if stands(s, i, a) && stands(s, i + a.len(), b) {
        assert forall|k: int| 0 <= k < t.len() implies s[i + k] == #[trigger] t[k] by {
            if k < a.len() {
                assert(t[k] == a[k]);
            } else {
                assert(t[k] == b[k - a.len()]);
                assert(s[i + a.len() + (k - a.len())] == b[k - a.len()]);
            }
        }
    }
}

proof fn lemma_stands_one(s: Seq<char>, i: int, c: char)
    ensures
        stands(s, i, seq![c]) <==> 0 <= i < s.len() && s[i] == c,
{
    if stands(s, i, seq![c]) {
        assert(seq![c][0] == c);
        assert(s[i + 0] == c);
    }
}

proof fn lemma_stands_tail(s: Seq<char>, i: int, t: Seq<char>)
    requires
        t.len() > 0,
    ensures
        stands(s, i, t) <==> 0 <= i < s.len() && s[i] == t[0] && stands(s, i + 1, t.skip(1)),
{
    assert(t == seq![t[0]] + t.skip(1));
    lemma_stands_split(s, i, seq![t[0]], t.skip(1));
    lemma_stands_one(s, i, t[0]);
}

proof fn lemma_blanks_run(s: Seq<char>, i: int, t: Seq<char>)
    requires
        stands(s, i, t),
        all_blank(t),
        i + t.len() == s.len() || !is_blank(s[i + t.len()]),
    ensures
        after_blanks(s, i) == i + t.len(),
    decreases t.len(),
{
    if t.len() > 0 {
        lemma_stands_tail(s, i, t);
        assert(s[i] == t[0]);
        assert(all_blank(t.skip(1)));
        lemma_blanks_run(s, i + 1, t.skip(1));
    }
}

proof fn lemma_digits_run(s: Seq<char>, i: int, t: Seq<char>)
    requires
        stands(s, i, t),
        forall|k: int| 0 <= k < t.len() ==> '0' <= #[trigger] t[k] <= '9',
        i + t.len() == s.len() || !is_digit(s[i + t.len()]),
    ensures
        after_digits(s, i) == i + t.len(),
    decreases t.len(),
{
    if t.len() > 0 {
        lemma_stands_tail(s, i, t);
        assert(s[i] == t[0]);
        lemma_digits_run(s, i + 1, t.skip(1));
    }
}

proof fn lemma_letters_run(s: Seq<char>, i: int, ls: Seq<Letter>)
    requires
        stands(s, i, letters_text(ls)),
        fine_letters(ls),
        i + letters_text(ls).len() < s.len(),
        s[i + letters_text(ls).len()] == '"',
    ensures
        chars_end(s, i) == Some(i + letters_text(ls).len() + 1),
    decreases ls.len(),
{
    if ls.len() > 0 {
        let t = letter_text(ls[0]);
        let rest = ls.skip(1);
        lemma_stands_split(s, i, t, letters_text(rest));
        assert(fine_letter(ls[0]));
        assert(fine_letters(rest));
        lemma_letters_run(s, i + t.len(), rest);
        match ls[0] {
            Letter::Plain(c) => {
                assert(t[0] == c);
                assert(s[i + 0] == c);
            },
            Letter::Escape(c) => {
                assert(t[0] == '\\' && t[1] == c);
                assert(s[i + 0] == '\\' && s[i + 1] == c);
            },
            Letter::Code(a, b, c, d) => {
                assert(t[0] == '\\' && t[1] == 'u' && t[2] == a && t[3] == b && t[4] == c && t[5]
                    == d);
                assert(s[i + 0] == '\\' && s[i + 1] == 'u' && s[i + 2] == a && s[i + 3] == b && s[i
                    + 4] == c && s[i + 5] == d);
            },
        }
    }
}

proof fn lemma_quoted_run(s: Seq<char>, i: int, ls: Seq<Letter>)
    requires
        stands(s, i, quoted(ls)),
        fine_letters(ls),
    ensures
        string_end(s, i) == Some(i + quoted(ls).len()),
        at(s, i) == Some('"'),
{
    let t = letters_text(ls);
    lemma_stands_split(s, i, seq!['"'] + t, seq!['"']);
    lemma_stands_split(s, i, seq!['"'], t);
    lemma_stands_one(s, i, '"');
    lemma_stands_one(s, i + 1 + t.len(), '"');
    lemma_letters_run(s, i + 1, ls);
}

/// Whether a character may follow a value.
spec fn ends_value(c: char) -> bool {
    c == ' ' || c == '\t' || c == '\n' || c == '\r' || c == ',' || c == ']' || c == '}'
}

proof fn lemma_number_run(s: Seq<char>, i: int, n: NumberParts)
    requires
        stands(s, i, number_text(n)),
        fine_number(n),
        i + number_text(n).len() == s.len() || ends_value(s[i + number_text(n).len()]),
    ensures
        scalar_end(s, i) == Some(i + number_text(n).len()),
{
    let sign: Seq<char> = if n.negative {
        seq!['-']
    } else {
        Seq::empty()
    };
    let f = fraction_text(n.fraction);
    let e = exponent_text(n.exponent);
    lemma_stands_split(s, i, sign + n.whole + f, e);
    lemma_stands_split(s, i, sign + n.whole, f);
    lemma_stands_split(s, i, sign, n.whole);
    let j = i + sign.len();
    let a = j + n.whole.len();
    let b = a + f.len();
    let z = b + e.len();
    assert(z == i + number_text(n).len());
    if n.negative {
        lemma_stands_one(s, i, '-');
    }
    assert(s[j + 0] == n.whole[0]);
    assert('0' <= n.whole[0] <= '9');
    if n.exponent is Some {
        let (mark, sg, d) = n.exponent->0;
        match sg {
            Some(c) => {
                lemma_stands_split(s, b, seq![mark, c], d);
                assert(seq![mark, c][0] == mark && seq![mark, c][1] == c);
                assert(s[b + 0] == mark && s[b + 1] == c);
                assert(s[b + 2 + 0] == d[0]);
                lemma_digits_run(s, b + 2, d);
            },
            None => {
                lemma_stands_split(s, b, seq![mark], d);
                lemma_stands_one(s, b, mark);
                assert(s[b + 1 + 0] == d[0]);
                lemma_digits_run(s, b + 1, d);
            },
        }
    }
    assert(exponent_end(s, b) == Some(z));
    if n.fraction is Some {
        let d = n.fraction->0;
        lemma_stands_split(s, a, seq!['.'], d);
        lemma_stands_one(s, a, '.');
        assert(s[a + 1 + 0] == d[0]);
        lemma_digits_run(s, a + 1, d);
    }
    assert(fraction_end(s, a) == Some(b));
    if n.whole[0] != '0' {
        lemma_digits_run(s, j, n.whole);
    }
    assert(integer_end(s, j) == Some(a));
    assert(number_end(s, i) == Some(z));
}

/// A value begins with a character that is no white space and closes nothing.
proof fn lemma_first(j: Json)
    requires
        fine(j),
    ensures
        written(j).len() > 0,
        !is_blank(written(j)[0]),
        written(j)[0] != ']' && written(j)[0] != '}' && written(j)[0] != ',',
{
    match j {
        Json::Number(n) => {
            if !n.negative {
                assert(written(j)[0] == n.whole[0]);
                assert('0' <= n.whole[0] <= '9');
            }
        },
        _ => {},
    }
}

proof fn lemma_value_run(s: Seq<char>, i: int, j: Json)
    requires
        stands(s, i, written(j)),
        fine(j),
        i + written(j).len() == s.len() || ends_value(s[i + written(j).len()]),
    ensures
        value_end(s, i) == Some(i + written(j).len()),
    decreases j, 0int,
{
    let t = written(j);
    lemma_first(j);
    assert(s[i + 0] == t[0]);
    match j {
        Json::Null => {
            assert(s.subrange(i, i + 4) == t);
        },
        Json::True => {
            assert(s.subrange(i, i + 4) == t);
        },
        Json::False => {
            assert(s.subrange(i, i + 5) == t);
        },
        Json::Number(n) => {
            lemma_number_run(s, i, n);
            if n.negative {
                assert(t[0] == '-');
            } else {
                assert(t[0] == n.whole[0]);
                assert('0' <= n.whole[0] <= '9');
            }
        },
        Json::Text(ls) => {
            lemma_quoted_run(s, i, ls);
        },
        Json::Many { object, heads, values, tails, blank } => {
            let open = if object {
                '{'
            } else {
                '['
            };
            let close = if object {
                '}'
            } else {
                ']'
            };
            let inner = if values.len() == 0 {
                blank
            } else {
                written_from(object, heads, values, tails, 0)
            };
            lemma_stands_split(s, i, seq![open] + inner, seq![close]);
            lemma_stands_split(s, i, seq![open], inner);
            lemma_stands_one(s, i, open);
            lemma_stands_one(s, i + 1 + inner.len(), close);
            if values.len() == 0 {
                lemma_blanks_run(s, i + 1, blank);
            } else {
                lemma_items_run(s, i + 1, object, heads, values, tails, 0);
            }
        },
    }
}

/// Where the value begins that is announced from `i` on in an object or an array.
spec fn announced(s: Seq<char>, i: int, object: bool) -> Option<int> {
    if object {
        member_value(s, after_blanks(s, i))
    } else {
        Some(after_blanks(s, i))
    }
}

proof fn lemma_head_run(s: Seq<char>, i: int, object: bool, h: Head)
    requires
        stands(s, i, head_text(object, h)),
        fine_head(object, h),
        i + head_text(object, h).len() < s.len(),
        !is_blank(s[i + head_text(object, h).len()]),
        s[i + head_text(object, h).len()] != ']',
    ensures
        announced(s, i, object) == Some(i + head_text(object, h).len()),
        at(s, after_blanks(s, i)) != Some(closing(object)),
        i <= after_blanks(s, i),
{
    if object {
        let q = quoted(h.name);
        let a = i + h.before.len();
        let b = a + q.len();
        let c = b + h.after_name.len();
        lemma_stands_split(s, i, h.before + q + h.after_name + seq![':'], h.after_colon);
        lemma_stands_split(s, i, h.before + q + h.after_name, seq![':']);
        lemma_stands_split(s, i, h.before + q, h.after_name);
        lemma_stands_split(s, i, h.before, q);
        lemma_quoted_run(s, a, h.name);
        lemma_blanks_run(s, i, h.before);
        lemma_stands_one(s, c, ':');
        lemma_blanks_run(s, b, h.after_name);
        lemma_blanks_run(s, c + 1, h.after_colon);
    } else {
        lemma_blanks_run(s, i, h.before);
    }
}

proof fn lemma_items_run(
    s: Seq<char>,
    i: int,
    object: bool,
    heads: Seq<Head>,
    values: Seq<Json>,
    tails: Seq<Seq<char>>,
    n: int,
)
    requires
        0 <= n < values.len(),
        heads.len() == values.len(),
        tails.len() == values.len(),
        forall|k: int| 0 <= k < values.len() ==> fine_head(object, #[trigger] heads[k]),
        forall|k: int| 0 <= k < values.len() ==> fine(#[trigger] values[k]),
        forall|k: int| 0 <= k < values.len() ==> all_blank(#[trigger] tails[k]),
        stands(s, i, written_from(object, heads, values, tails, n)),
        i + written_from(object, heads, values, tails, n).len() < s.len(),
        s[i + written_from(object, heads, values, tails, n).len()] == closing(object),
    ensures
        ({
            let e = i + written_from(object, heads, values, tails, n).len();
            let v = announced(s, i, object);
            let q = value_end(s, v->0);
            &&& v is Some
            &&& i <= v->0 < s.len()
            &&& q is Some
            &&& v->0 < q->0 <= s.len()
            &&& rest_end(s, q->0, object) == Some(e + 1)
            &&& at(s, after_blanks(s, i)) != Some(closing(object))
            &&& i <= after_blanks(s, i)
        }),
    decreases values, values.len() - n,
{
    let head = head_text(object, heads[n]);
    let value = written(values[n]);
    let tail = tails[n];
    let more: Seq<char> = if n + 1 < values.len() {
        seq![','] + written_from(object, heads, values, tails, n + 1)
    } else {
        Seq::empty()
    };
    let v = i + head.len();
    let q = v + value.len();
    let c = q + tail.len();
    lemma_stands_split(s, i, head + value + tail, more);
    lemma_stands_split(s, i, head + value, tail);
    lemma_stands_split(s, i, head, value);
    assert(fine(values[n]));
    assert(fine_head(object, heads[n]));
    assert(all_blank(tails[n]));
    lemma_first(values[n]);
    assert(s[v + 0] == value[0]);
    lemma_head_run(s, i, object, heads[n]);
    if n + 1 < values.len() {
        let rest = written_from(object, heads, values, tails, n + 1);
        lemma_stands_split(s, c, seq![','], rest);
        lemma_stands_one(s, c, ',');
    }
    if tail.len() > 0 {
        assert(s[q + 0] == tail[0]);
    }
    lemma_value_run(s, v, values[n]);
    lemma_blanks_run(s, q, tail);
    if n + 1 < values.len() {
        lemma_items_run(s, c + 1, object, heads, values, tails, n + 1);
    }
}

/// Law: every object and array is recognised as it is written: with any members and values,
/// numbers of any digits, strings of any letters and any white space between them.
pub proof fn law_written_structures_are_recognised(
    j: Json,
    before: Seq<char>,
    behind: Seq<char>,
)
    requires
        fine(j),
        j is Many,
        all_blank(before),
        all_blank(behind),
    ensures
        is_structure(before + written(j) + behind),
{
    let s = before + written(j) + behind;
    let i = before.len() as int;
    assert(stands(s, 0, s));
    lemma_stands_split(s, 0, before + written(j), behind);
    lemma_stands_split(s, 0, before, written(j));
    lemma_first(j);
    assert(s[i + 0] == written(j)[0]);
    lemma_blanks_run(s, 0, before);
    if behind.len() > 0 {
        assert(s[i + written(j).len() + 0] == behind[0]);
    }
    lemma_value_run(s, i, j);
    lemma_blanks_run(s, i + written(j).len(), behind);
}

/// Law: an array that holds a whole number is recognised, whatever the number.
pub proof fn law_array_of_a_number_is_recognised(n: nat)
    ensures
        is_structure(seq!['['] + decimal(n) + seq![']']),
{
    let number = NumberParts { negative: false, whole: decimal(n), fraction: None, exponent: None };
    let blank = Seq::<char>::empty();
    let head = Head { before: blank, name: Seq::empty(), after_name: blank, after_colon: blank };
    let values = seq![Json::Number(number)];
    let j = Json::Many { object: false, heads: seq![head], values, tails: seq![blank], blank };
    lemma_digits_are_digits(n, 10);
    lemma_no_leading_zero(n);
    assert(fine(values[0]));
    assert(fine(j));
    assert(number_text(number) == decimal(n));
    assert(written(values[0]) == decimal(n));
    assert(written_from(false, seq![head], values, seq![blank], 0) == decimal(n));
    assert(blank + written(j) + blank == seq!['['] + decimal(n) + seq![']']);
    law_written_structures_are_recognised(j, blank, blank);
}

proof fn lemma_no_leading_zero(n: nat)
    ensures
        decimal(n).len() > 1 ==> decimal(n)[0] != '0',
        n > 0 ==> decimal(n)[0] != '0',
    decreases n,
{
    if n >= 10 {
        lemma_no_leading_zero(n / 10);
        lemma_digits_are_digits(n / 10, 10);
    }
}

proof fn lemma_stands_there(s: Seq<char>, i: int, k: int)
    requires
        0 <= i <= k <= s.len(),
    ensures
        stands(s, i, s.subrange(i, k)),
{
}

/// The white space from `i` on.
proof fn read_blanks(s: Seq<char>, i: int) -> (t: Seq<char>)
    requires
        0 <= i <= s.len(),
    ensures
        all_blank(t),
        stands(s, i, t),
        after_blanks(s, i) == i + t.len(),
{
    lemma_blanks(s, i);
    s.subrange(i, after_blanks(s, i))
}

/// The digits from `i` on.
proof fn read_digits(s: Seq<char>, i: int) -> (t: Seq<char>)
    requires
        0 <= i < s.len(),
        is_digit(s[i]),
    ensures
        all_digits(t),
        stands(s, i, t),
        after_digits(s, i) == i + t.len(),
{
    lemma_digits(s, i);
    lemma_digits(s, i + 1);
    s.subrange(i, after_digits(s, i))
}

spec fn letter_in_front(l: Letter, rest: Seq<Letter>) -> Seq<Letter> {
    seq![l] + rest
}

proof fn lemma_letter_in_front(l: Letter, rest: Seq<Letter>)
    requires
        fine_letter(l),
        fine_letters(rest),
    ensures
        fine_letters(letter_in_front(l, rest)),
        letters_text(letter_in_front(l, rest)) == letter_text(l) + letters_text(rest),
{
    let ls = letter_in_front(l, rest);
    assert(ls.skip(1) =~= rest);
    assert forall|k: int| 0 <= k < ls.len() implies fine_letter(#[trigger] ls[k]) by {
        if k > 0 {
            assert(ls[k] == rest[k - 1]);
        }
    }
}

/// The letters of a string from `i` on.
proof fn read_letters(s: Seq<char>, i: int) -> (ls: Seq<Letter>)
    requires
        0 <= i,
        chars_end(s, i) is Some,
    ensures
        fine_letters(ls),
        stands(s, i, letters_text(ls)),
        i + letters_text(ls).len() < s.len(),
        s[i + letters_text(ls).len()] == '"',
        chars_end(s, i) == Some(i + letters_text(ls).len() + 1),
    decreases s.len() - i,
{
    if s[i] == '"' {
        Seq::empty()
    } else {
        let l = if s[i] != '\\' {
            Letter::Plain(s[i])
        } else if s[i + 1] == 'u' {
            Letter::Code(s[i + 2], s[i + 3], s[i + 4], s[i + 5])
        } else {
            Letter::Escape(s[i + 1])
        };
        let t = letter_text(l);
        let rest = read_letters(s, i + t.len());
        lemma_letter_in_front(l, rest);
        assert(stands(s, i, t));
        lemma_stands_split(s, i, t, letters_text(rest));
        letter_in_front(l, rest)
    }
}

/// The string that begins at `i`.
proof fn read_quoted(s: Seq<char>, i: int) -> (ls: Seq<Letter>)
    requires
        0 <= i,
        string_end(s, i) is Some,
    ensures
        fine_letters(ls),
        stands(s, i, quoted(ls)),
        string_end(s, i) == Some(i + quoted(ls).len()),
{
    let ls = read_letters(s, i + 1);
    let t = letters_text(ls);
    lemma_stands_one(s, i, '"');
    lemma_stands_one(s, i + 1 + t.len(), '"');
    lemma_stands_split(s, i, seq!['"'], t);
    lemma_stands_split(s, i, seq!['"'] + t, seq!['"']);
    ls
}

/// The number that begins at `i`.
proof fn read_number_parts(s: Seq<char>, i: int) -> (n: NumberParts)
    requires
        0 <= i,
        number_end(s, i) is Some,
    ensures
        fine_number(n),
        stands(s, i, number_text(n)),
        number_end(s, i) == Some(i + number_text(n).len()),
{
    let negative = at(s, i) == Some('-');
    let sign: Seq<char> = if negative {
        seq!['-']
    } else {
        Seq::empty()
    };
    let j = i + sign.len();
    lemma_stands_one(s, i, '-');
    let a = integer_end(s, j)->0;
    let whole = if s[j] == '0' {
        seq!['0']
    } else {
        read_digits(s, j)
    };
    lemma_stands_one(s, j, '0');
    assert(stands(s, j, whole) && a == j + whole.len() && all_digits(whole));
    assert(s[j + 0] == whole[0]);
    let fraction = if at(s, a) == Some('.') {
        Some(read_digits(s, a + 1))
    } else {
        None
    };
    let f = fraction_text(fraction);
    let b = fraction_end(s, a)->0;
    lemma_stands_one(s, a, '.');
    if fraction is Some {
        lemma_stands_split(s, a, seq!['.'], fraction->0);
    }
    assert(stands(s, a, f) && b == a + f.len());
    let exponent = if at(s, b) == Some('e') || at(s, b) == Some('E') {
        if at(s, b + 1) == Some('+') || at(s, b + 1) == Some('-') {
            Some((s[b], Some(s[b + 1]), read_digits(s, b + 2)))
        } else {
            Some((s[b], None, read_digits(s, b + 1)))
        }
    } else {
        None
    };
    let e = exponent_text(exponent);
    let z = exponent_end(s, b)->0;
    if exponent is Some {
        let (mark, sg, d) = exponent->0;
        match sg {
            Some(c) => {
                assert(stands(s, b, seq![mark, c]));
                lemma_stands_split(s, b, seq![mark, c], d);
            },
            None => {
                lemma_stands_one(s, b, mark);
                lemma_stands_split(s, b, seq![mark], d);
            },
        }
    }
    assert(stands(s, b, e) && z == b + e.len());
    let n = NumberParts { negative, whole, fraction, exponent };
    lemma_stands_split(s, i, sign, whole);
    lemma_stands_split(s, i, sign + whole, f);
    lemma_stands_split(s, i, sign + whole + f, e);
    n
}

/// What announces a value from `i` on.
proof fn read_head(s: Seq<char>, i: int, object: bool) -> (h: Head)
    requires
        0 <= i <= s.len(),
        announced(s, i, object) is Some,
    ensures
        fine_head(object, h),
        stands(s, i, head_text(object, h)),
        announced(s, i, object) == Some(i + head_text(object, h).len()),
{
    let before = read_blanks(s, i);
    let a = i + before.len();
    if object {
        lemma_chars_end(s, a + 1);
        let name = read_quoted(s, a);
        let q = quoted(name);
        let b = a + q.len();
        let after_name = read_blanks(s, b);
        let c = b + after_name.len();
        lemma_stands_one(s, c, ':');
        let after_colon = read_blanks(s, c + 1);
        lemma_stands_split(s, i, before, q);
        lemma_stands_split(s, i, before + q, after_name);
        lemma_stands_split(s, i, before + q + after_name, seq![':']);
        lemma_stands_split(s, i, before + q + after_name + seq![':'], after_colon);
        Head { before, name, after_name, after_colon }
    } else {
        Head { before, name: Seq::empty(), after_name: before, after_colon: before }
    }
}

/// What stands in an object or array: what stands in front of and behind each value, and the
/// values.
struct Items {
    heads: Seq<Head>,
    values: Seq<Json>,
    tails: Seq<Seq<char>>,
}

spec fn fine_items(object: bool, m: Items) -> bool {
    &&& m.heads.len() == m.values.len()
    &&& m.tails.len() == m.values.len()
    &&& forall|k: int| 0 <= k < m.values.len() ==> fine_head(object, #[trigger] m.heads[k])
    &&& forall|k: int| 0 <= k < m.values.len() ==> fine(#[trigger] m.values[k])
    &&& forall|k: int| 0 <= k < m.values.len() ==> all_blank(#[trigger] m.tails[k])
}

/// What follows a value in an object or array: the closing, or a comma and more.
spec fn more_text(object: bool, m: Items) -> Seq<char> {
    if m.values.len() == 0 {
        Seq::empty()
    } else {
        seq![','] + written_from(object, m.heads, m.values, m.tails, 0)
    }
}

/// One value in front of others.
spec fn in_front(h: Head, v: Json, t: Seq<char>, m: Items) -> Items {
    Items { heads: seq![h] + m.heads, values: seq![v] + m.values, tails: seq![t] + m.tails }
}

proof fn lemma_shift(object: bool, h: Head, v: Json, t: Seq<char>, m: Items, n: int)
    requires
        m.heads.len() == m.values.len(),
        m.tails.len() == m.values.len(),
        0 <= n <= m.values.len(),
    ensures
        ({
            let w = in_front(h, v, t, m);
            written_from(object, w.heads, w.values, w.tails, n + 1) == written_from(
                object,
                m.heads,
                m.values,
                m.tails,
                n,
            )
        }),
    decreases m.values.len() - n,
{
    let w = in_front(h, v, t, m);
    if n < m.values.len() {
        lemma_shift(object, h, v, t, m, n + 1);
        assert(w.heads[n + 1] == m.heads[n]);
        assert(w.values[n + 1] == m.values[n]);
        assert(w.tails[n + 1] == m.tails[n]);
    }
}

proof fn lemma_in_front(object: bool, h: Head, v: Json, t: Seq<char>, m: Items)
    requires
        fine_items(object, m),
        fine_head(object, h),
        fine(v),
        all_blank(t),
    ensures
        fine_items(object, in_front(h, v, t, m)),
        ({
            let w = in_front(h, v, t, m);
            written_from(object, w.heads, w.values, w.tails, 0) == head_text(object, h) + written(v)
                + t + more_text(object, m)
        }),
{
    let w = in_front(h, v, t, m);
    lemma_shift(object, h, v, t, m, 0);
    assert forall|k: int| 0 <= k < w.values.len() implies fine_head(
        object,
        #[trigger] w.heads[k],
    ) by {
        if k > 0 {
            assert(w.heads[k] == m.heads[k - 1]);
        }
    }
    assert forall|k: int| 0 <= k < w.values.len() implies fine(#[trigger] w.values[k]) by {
        if k > 0 {
            assert(w.values[k] == m.values[k - 1]);
        }
    }
    assert forall|k: int| 0 <= k < w.values.len() implies all_blank(#[trigger] w.tails[k]) by {
        if k > 0 {
            assert(w.tails[k] == m.tails[k - 1]);
        }
    }
    assert(w.heads[0] == h && w.values[0] == v && w.tails[0] == t);
}

/// The values of an object or array from one on that is announced at `i`.
proof fn read_items(s: Seq<char>, i: int, object: bool) -> (m: Items)
    requires
        0 <= i <= s.len(),
        announced(s, i, object) is Some,
        announced(s, i, object)->0 < s.len(),
        value_end(s, announced(s, i, object)->0) is Some,
        rest_end(s, value_end(s, announced(s, i, object)->0)->0, object) is Some,
    ensures
        fine_items(object, m),
        m.values.len() > 0,
        ({
            let t = written_from(object, m.heads, m.values, m.tails, 0);
            let q = value_end(s, announced(s, i, object)->0)->0;
            &&& stands(s, i, t)
            &&& i + t.len() < s.len()
            &&& s[i + t.len()] == closing(object)
            &&& rest_end(s, q, object) == Some(i + t.len() + 1)
        }),
    decreases s.len() - i, 1int,
{
    let h = read_head(s, i, object);
    let head = head_text(object, h);
    let a = i + head.len();
    let v = read_value(s, a);
    let value = written(v);
    let q = a + value.len();
    lemma_value_end(s, a);
    let tail = read_blanks(s, q);
    let next = q + tail.len();
    let m = if s[next] == closing(object) {
        Items { heads: Seq::empty(), values: Seq::empty(), tails: Seq::empty() }
    } else {
        read_items(s, next + 1, object)
    };
    lemma_in_front(object, h, v, tail, m);
    let w = in_front(h, v, tail, m);
    let more = more_text(object, m);
    if m.values.len() > 0 {
        lemma_stands_one(s, next, ',');
        lemma_stands_split(
            s,
            next,
            seq![','],
            written_from(object, m.heads, m.values, m.tails, 0),
        );
    }
    assert(stands(s, next, more));
    lemma_stands_split(s, i, head, value);
    lemma_stands_split(s, i, head + value, tail);
    lemma_stands_split(s, i, head + value + tail, more);
    w
}

/// The value that begins at `i`.
proof fn read_value(s: Seq<char>, i: int) -> (j: Json)
    requires
        0 <= i,
        value_end(s, i) is Some,
    ensures
        fine(j),
        stands(s, i, written(j)),
        value_end(s, i) == Some(i + written(j).len()),
        at(s, i) == Some('[') || at(s, i) == Some('{') ==> j is Many,
    decreases s.len() - i, 0int,
{
    if at(s, i) == Some('[') || at(s, i) == Some('{') {
        let object = s[i] == '{';
        let blank = read_blanks(s, i + 1);
        let first = i + 1 + blank.len();
        let m = if at(s, first) == Some(closing(object)) {
            Items { heads: Seq::empty(), values: Seq::empty(), tails: Seq::empty() }
        } else {
            read_items(s, i + 1, object)
        };
        let j = Json::Many { object, heads: m.heads, values: m.values, tails: m.tails, blank };
        let inner = if m.values.len() == 0 {
            blank
        } else {
            written_from(object, m.heads, m.values, m.tails, 0)
        };
        lemma_stands_one(s, i, s[i]);
        lemma_stands_one(s, i + 1 + inner.len(), closing(object));
        lemma_stands_split(s, i, seq![s[i]], inner);
        lemma_stands_split(s, i, seq![s[i]] + inner, seq![closing(object)]);
        j
    } else {
        match at(s, i) {
            Some('"') => Json::Text(read_quoted(s, i)),
            Some('t') => {
                lemma_stands_there(s, i, i + 4);
                Json::True
            },
            Some('f') => {
                lemma_stands_there(s, i, i + 5);
                Json::False
            },
            Some('n') => {
                lemma_stands_there(s, i, i + 4);
                Json::Null
            },
            _ => Json::Number(read_number_parts(s, i)),
        }
    }
}

/// Whether a text is an object or array as it is written, with white space around it.
pub open spec fn writes(s: Seq<char>, before: Seq<char>, j: Json, behind: Seq<char>) -> bool {
    &&& all_blank(before)
    &&& all_blank(behind)
    &&& j is Many
    &&& fine(j)
    &&& s == before + written(j) + behind
}

/// Law: what is recognised is exactly what an object or an array is written as, with white
/// space around it or not.
pub proof fn law_recognised_is_what_is_written(s: Seq<char>)
    ensures
        is_structure(s) <==> exists|before: Seq<char>, j: Json, behind: Seq<char>|
            writes(s, before, j, behind),
{
    if is_structure(s) {
        let before = read_blanks(s, 0);
        let i = before.len() as int;
        let j = read_value(s, i);
        let k = i + written(j).len();
        let behind = read_blanks(s, k);
        lemma_stands_split(s, 0, before, written(j));
        lemma_stands_split(s, 0, before + written(j), behind);
        let t = before + written(j) + behind;
        assert(stands(s, 0, t));
        assert forall|x: int| 0 <= x < s.len() implies s[x] == t[x] by {
            assert(s[0 + x] == t[x]);
        }
        assert(s =~= t);
        assert(writes(s, before, j, behind));
    }
    if exists|before: Seq<char>, j: Json, behind: Seq<char>| writes(s, before, j, behind) {
        let (before, j, behind) = choose|before: Seq<char>, j: Json, behind: Seq<char>|
            writes(s, before, j, behind);
        law_written_structures_are_recognised(j, before, behind);
    }
}

} // verus!
