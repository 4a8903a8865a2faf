//! Recognising JSON objects and arrays.
use vstd::prelude::*;

verus! {

/// The white space of JSON.
pub open spec fn is_blank(c: char) -> bool {
    c == ' ' || c == '\t' || c == '\n' || c == '\r'
}

/// A decimal digit.
pub open spec fn is_digit(c: char) -> bool {
    '0' <= c <= '9'
}

/// A hexadecimal digit, in either case.
pub open spec fn is_hex_digit(c: char) -> bool {
    ('0' <= c <= '9') || ('a' <= c <= 'f') || ('A' <= c <= 'F')
}

/// The characters that may follow a backslash on their own.
pub open spec fn is_escape(c: char) -> bool {
    c == '"' || c == '\\' || c == '/' || c == 'b' || c == 'f' || c == 'n' || c == 'r' || c == 't'
}

/// The character at `i`, if there is one.
pub open spec fn at(s: Seq<char>, i: int) -> Option<char> {
    if 0 <= i < s.len() {
        Some(s[i])
    } else {
        None
    }
}

/// The first place from `i` on that holds no white space.
pub open spec fn after_blanks(s: Seq<char>, i: int) -> int
    decreases s.len() - i,
{
    if 0 <= i < s.len() && is_blank(s[i]) {
        after_blanks(s, i + 1)
    } else {
        i
    }
}

/// The first place from `i` on that holds no digit.
pub open spec fn after_digits(s: Seq<char>, i: int) -> int
    decreases s.len() - i,
{
    if 0 <= i < s.len() && is_digit(s[i]) {
        after_digits(s, i + 1)
    } else {
        i
    }
}

/// Where a run of at least one digit from `i` on ends.
pub open spec fn digits_end(s: Seq<char>, i: int) -> Option<int> {
    if 0 <= i < s.len() && is_digit(s[i]) {
        Some(after_digits(s, i))
    } else {
        None
    }
}

/// Where the rest of a string ends, its opening quote being before `i`.
pub open spec fn chars_end(s: Seq<char>, i: int) -> Option<int>
    decreases s.len() - i,
{
    if !(0 <= i < s.len()) {
        None
    } else if s[i] == '"' {
        Some(i + 1)
    } else if s[i] == '\\' {
        if i + 1 < s.len() && is_escape(s[i + 1]) {
            chars_end(s, i + 2)
        } else if i + 5 < s.len() && s[i + 1] == 'u' && is_hex_digit(s[i + 2]) && is_hex_digit(
            s[i + 3],
        ) && is_hex_digit(s[i + 4]) && is_hex_digit(s[i + 5]) {
            chars_end(s, i + 6)
        } else {
            None
        }
    } else if ' ' > s[i] {
        None
    } else {
        chars_end(s, i + 1)
    }
}

/// Where a string that begins at `i` ends.
pub open spec fn string_end(s: Seq<char>, i: int) -> Option<int> {
    if at(s, i) == Some('"') {
        chars_end(s, i + 1)
    } else {
        None
    }
}

/// Where the integer part of a number that begins at `i` ends.
pub open spec fn integer_end(s: Seq<char>, i: int) -> Option<int> {
    if at(s, i) == Some('0') {
        Some(i + 1)
    } else {
        digits_end(s, i)
    }
}

/// Where the fraction of a number ends, if there is one at `i`.
pub open spec fn fraction_end(s: Seq<char>, i: int) -> Option<int> {
    if at(s, i) == Some('.') {
        digits_end(s, i + 1)
    } else {
        Some(i)
    }
}

/// Where the exponent of a number ends, if there is one at `i`.
pub open spec fn exponent_end(s: Seq<char>, i: int) -> Option<int> {
    if at(s, i) == Some('e') || at(s, i) == Some('E') {
        if at(s, i + 1) == Some('+') || at(s, i + 1) == Some('-') {
            digits_end(s, i + 2)
        } else {
            digits_end(s, i + 1)
        }
    } else {
        Some(i)
    }
}

/// Where a number that begins at `i` ends.
pub open spec fn number_end(s: Seq<char>, i: int) -> Option<int> {
    let whole = if at(s, i) == Some('-') {
        integer_end(s, i + 1)
    } else {
        integer_end(s, i)
    };
    match whole {
        None => None,
        Some(a) => match fraction_end(s, a) {
            None => None,
            Some(b) => exponent_end(s, b),
        },
    }
}

/// Where `word` ends if it stands at `i`.
pub open spec fn word_end(s: Seq<char>, i: int, word: Seq<char>) -> Option<int> {
    if 0 <= i <= s.len() - word.len() && s.subrange(i, i + word.len()) == word {
        Some(i + word.len())
    } else {
        None
    }
}

/// Where a value that is no object or array ends, beginning at `i`.
pub open spec fn scalar_end(s: Seq<char>, i: int) -> Option<int> {
    match at(s, i) {
        Some('"') => string_end(s, i),
        Some('t') => word_end(s, i, seq!['t', 'r', 'u', 'e']),
        Some('f') => word_end(s, i, seq!['f', 'a', 'l', 's', 'e']),
        Some('n') => word_end(s, i, seq!['n', 'u', 'l', 'l']),
        _ => number_end(s, i),
    }
}

/// Where the value of an object's member begins, the member's name beginning
/// at `i`.
pub open spec fn member_value(s: Seq<char>, i: int) -> Option<int> {
    match string_end(s, i) {
        None => None,
        Some(k) => {
            let colon = after_blanks(s, k);
            if at(s, colon) == Some(':') {
                Some(after_blanks(s, colon + 1))
            } else {
                None
            }
        },
    }
}

/// Where a value that begins at `i` ends.
pub open spec fn value_end(s: Seq<char>, i: int) -> Option<int>
    decreases s.len() - i, 1int,
{
    if at(s, i) == Some('[') {
        let first = after_blanks(s, i + 1);
        if at(s, first) == Some(']') {
            Some(first + 1)
        } else if i < first < s.len() {
            match value_end(s, first) {
                None => None,
                Some(k) => if i < k <= s.len() {
                    rest_end(s, k, false)
                } else {
                    None
                },
            }
        } else {
            None
        }
    } else if at(s, i) == Some('{') {
        let first = after_blanks(s, i + 1);
        if at(s, first) == Some('}') {
            Some(first + 1)
        } else {
            match member_value(s, first) {
                None => None,
                Some(v) => if i < v < s.len() {
                    match value_end(s, v) {
                        None => None,
                        Some(k) => if i < k <= s.len() {
                            rest_end(s, k, true)
                        } else {
                            None
                        },
                    }
                } else {
                    None
                },
            }
        }
    } else {
        scalar_end(s, i)
    }
}

/// Where an object (or an array) ends, one of its values having ended at `i`.
pub open spec fn rest_end(s: Seq<char>, i: int, object: bool) -> Option<int>
    decreases s.len() - i, 0int,
{
    let next = after_blanks(s, i);
    if at(s, next) == Some(closing(object)) {
        Some(next + 1)
    } else if at(s, next) == Some(',') {
        let item = after_blanks(s, next + 1);
        let start = if object {
            member_value(s, item)
        } else {
            Some(item)
        };
        match start {
            None => None,
            Some(v) => if i < v < s.len() {
                match value_end(s, v) {
                    None => None,
                    Some(k) => if i < k <= s.len() {
                        rest_end(s, k, object)
                    } else {
                        None
                    },
                }
            } else {
                None
            },
        }
    } else {
        None
    }
}

/// The character that closes an object or an array.
pub open spec fn closing(object: bool) -> char {
    if object {
        '}'
    } else {
        ']'
    }
}

/// Whether a text is a JSON object or array, with white space around it or not.
pub open spec fn is_structure(s: Seq<char>) -> bool {
    let i = after_blanks(s, 0);
    &&& at(s, i) == Some('{') || at(s, i) == Some('[')
    &&& value_end(s, i) matches Some(k) && after_blanks(s, k) == s.len()
}

pub(crate) proof fn lemma_blanks(s: Seq<char>, i: int)
    requires
        0 <= i <= s.len(),
    ensures
        i <= after_blanks(s, i) <= s.len(),
        at(s, after_blanks(s, i)) matches Some(c) ==> !is_blank(c),
        forall|k: int| i <= k < after_blanks(s, i) ==> is_blank(#[trigger] s[k]),
    decreases s.len() - i,
{
    if i < s.len() && is_blank(s[i]) {
        lemma_blanks(s, i + 1);
    }
}

pub(crate) proof fn lemma_digits(s: Seq<char>, i: int)
    requires
        0 <= i <= s.len(),
    ensures
        i <= after_digits(s, i) <= s.len(),
        at(s, after_digits(s, i)) matches Some(c) ==> !is_digit(c),
        forall|k: int| i <= k < after_digits(s, i) ==> is_digit(#[trigger] s[k]),
    decreases s.len() - i,
{
    if i < s.len() && is_digit(s[i]) {
        lemma_digits(s, i + 1);
    }
}

pub(crate) proof fn lemma_chars_end(s: Seq<char>, i: int)
    requires
        0 <= i,
    ensures
        chars_end(s, i) matches Some(k) ==> i < k <= s.len(),
    decreases s.len() - i,
{
    if i < s.len() {
        if s[i] == '\\' {
            if i + 1 < s.len() {
                lemma_chars_end(s, i + 2);
                if i + 5 < s.len() {
                    lemma_chars_end(s, i + 6);
                }
            }
        } else {
            lemma_chars_end(s, i + 1);
        }
    }
}

proof fn lemma_digits_end(s: Seq<char>, i: int)
    requires
        0 <= i,
    ensures
        digits_end(s, i) matches Some(k) ==> i < k <= s.len(),
{
    if i < s.len() && is_digit(s[i]) {
        lemma_digits(s, i + 1);
    }
}

proof fn lemma_scalar_end(s: Seq<char>, i: int)
    requires
        0 <= i,
    ensures
        scalar_end(s, i) matches Some(k) ==> i < k <= s.len(),
{
    lemma_chars_end(s, i + 1);
    let j = if at(s, i) == Some('-') {
        i + 1
    } else {
        i
    };
    lemma_digits_end(s, j);
    if integer_end(s, j) is Some {
        let a = integer_end(s, j)->0;
        lemma_digits_end(s, a + 1);
        if fraction_end(s, a) is Some {
            let b = fraction_end(s, a)->0;
            lemma_digits_end(s, b + 1);
            lemma_digits_end(s, b + 2);
        }
    }
}

proof fn lemma_member_value(s: Seq<char>, i: int)
    requires
        0 <= i,
    ensures
        member_value(s, i) matches Some(v) ==> i < v <= s.len(),
{
    lemma_chars_end(s, i + 1);
    if string_end(s, i) is Some {
        let k = string_end(s, i)->0;
        lemma_blanks(s, k);
        let colon = after_blanks(s, k);
        if at(s, colon) == Some(':') {
            lemma_blanks(s, colon + 1);
        }
    }
}

/// A value ends behind its beginning and inside the text.
pub(crate) proof fn lemma_value_end(s: Seq<char>, i: int)
    requires
        0 <= i,
    ensures
        value_end(s, i) matches Some(k) ==> i < k <= s.len(),
    decreases s.len() - i, 1int,
{
    lemma_scalar_end(s, i);
    if i < s.len() {
        lemma_blanks(s, i + 1);
        let first = after_blanks(s, i + 1);
        if at(s, i) == Some('[') {
            if i < first < s.len() {
                lemma_value_end(s, first);
                if value_end(s, first) is Some {
                    lemma_rest_end(s, value_end(s, first)->0, false);
                }
            }
        } else if at(s, i) == Some('{') {
            lemma_member_value(s, first);
            if member_value(s, first) is Some {
                let v = member_value(s, first)->0;
                if v < s.len() {
                    lemma_value_end(s, v);
                    if value_end(s, v) is Some {
                        lemma_rest_end(s, value_end(s, v)->0, true);
                    }
                }
            }
        }
    }
}

proof fn lemma_rest_end(s: Seq<char>, i: int, object: bool)
    requires
        0 <= i,
    ensures
        rest_end(s, i, object) matches Some(k) ==> i < k <= s.len(),
    decreases s.len() - i, 0int,
{
    if i < s.len() {
        lemma_blanks(s, i);
        let next = after_blanks(s, i);
        if at(s, next) == Some(',') {
            lemma_blanks(s, next + 1);
            let item = after_blanks(s, next + 1);
            lemma_member_value(s, item);
            let start = if object {
                member_value(s, item)
            } else {
                Some(item)
            };
            if start is Some {
                let v = start->0;
                if i < v < s.len() {
                    lemma_value_end(s, v);
                    if value_end(s, v) is Some {
                        lemma_rest_end(s, value_end(s, v)->0, object);
                    }
                }
            }
        }
    }
}

fn skip_blanks(v: &Vec<char>, i: usize) -> (r: usize)
    requires
        i <= v.len(),
    ensures
        r == after_blanks(v@, i as int),
        i <= r <= v.len(),
{
    let mut j: usize = i;
    while j < v.len() && (v[j] == ' ' || v[j] == '\t' || v[j] == '\n' || v[j] == '\r')
        invariant
            i <= j <= v.len(),
            after_blanks(v@, i as int) == after_blanks(v@, j as int),
        decreases v.len() - j,
    {
        j += 1;
    }
    j
}

fn find_digits_end(v: &Vec<char>, i: usize) -> (r: Option<usize>)
    ensures
        r is Some <==> digits_end(v@, i as int) is Some,
        r matches Some(k) ==> digits_end(v@, i as int) == Some(k as int) && i < k <= v.len(),
{
    if i < v.len() && v[i] >= '0' && v[i] <= '9' {
        let mut j: usize = i + 1;
        while j < v.len() && v[j] >= '0' && v[j] <= '9'
            invariant
                i < j <= v.len(),
                after_digits(v@, i as int) == after_digits(v@, j as int),
            decreases v.len() - j,
        {
            j += 1;
        }
        Some(j)
    } else {
        None
    }
}

fn hex_digit(c: char) -> (r: bool)
    ensures
        r == is_hex_digit(c),
{
    (c >= '0' && c <= '9') || (c >= 'a' && c <= 'f') || (c >= 'A' && c <= 'F')
}

fn escape(c: char) -> (r: bool)
    ensures
        r == is_escape(c),
{
    c == '"' || c == '\\' || c == '/' || c == 'b' || c == 'f' || c == 'n' || c == 'r' || c == 't'
}

fn find_string_end(v: &Vec<char>, i: usize) -> (r: Option<usize>)
    ensures
        r is Some <==> string_end(v@, i as int) is Some,
        r matches Some(k) ==> string_end(v@, i as int) == Some(k as int) && i < k <= v.len(),
{
    if !(i < v.len() && v[i] == '"') {
        return None;
    }
    let mut j: usize = i + 1;
    while j < v.len()
        invariant
            i < j <= v.len(),
            string_end(v@, i as int) == chars_end(v@, j as int),
        decreases v.len() - j,
    {
        let c = v[j];
        if c == '"' {
            return Some(j + 1);
        }
        if c == '\\' {
            if v.len() - j > 1 && escape(v[j + 1]) {
                j += 2;
            } else if v.len() - j > 5 && v[j + 1] == 'u' && hex_digit(v[j + 2]) && hex_digit(
                v[j + 3],
            ) && hex_digit(v[j + 4]) && hex_digit(v[j + 5]) {
                j += 6;
            } else {
                return None;
            }
        } else if ' ' > c {
            return None;
        } else {
            j += 1;
        }
    }
    None
}

fn find_number_end(v: &Vec<char>, i: usize) -> (r: Option<usize>)
    requires
        i < v.len(),
    ensures
        r is Some <==> number_end(v@, i as int) is Some,
        r matches Some(k) ==> number_end(v@, i as int) == Some(k as int) && i < k <= v.len(),
{
    let j: usize = if v[i] == '-' {
        i + 1
    } else {
        i
    };
    let whole: Option<usize> = if j < v.len() && v[j] == '0' {
        Some(j + 1)
    } else {
        find_digits_end(v, j)
    };
    let a: usize = match whole {
        None => {
            return None;
        },
        Some(a) => a,
    };
    let fraction: Option<usize> = if a < v.len() && v[a] == '.' {
        find_digits_end(v, a + 1)
    } else {
        Some(a)
    };
    let b: usize = match fraction {
        None => {
            return None;
        },
        Some(b) => b,
    };
    if b < v.len() && (v[b] == 'e' || v[b] == 'E') {
        if v.len() - b > 1 && (v[b + 1] == '+' || v[b + 1] == '-') {
            if v.len() - b > 2 {
                find_digits_end(v, b + 2)
            } else {
                None
            }
        } else {
            find_digits_end(v, b + 1)
        }
    } else {
        Some(b)
    }
}

fn find_scalar_end(v: &Vec<char>, i: usize) -> (r: Option<usize>)
    requires
        i < v.len(),
    ensures
        r is Some <==> scalar_end(v@, i as int) is Some,
        r matches Some(k) ==> scalar_end(v@, i as int) == Some(k as int) && i < k <= v.len(),
{
    let n: usize = v.len() - i;
    if v[i] == '"' {
        find_string_end(v, i)
    } else if v[i] == 't' {
        if n >= 4 && v[i + 1] == 'r' && v[i + 2] == 'u' && v[i + 3] == 'e' {
            assert(v@.subrange(i as int, i + 4) == seq!['t', 'r', 'u', 'e']);
            Some(i + 4)
        } else {
            assert(word_end(v@, i as int, seq!['t', 'r', 'u', 'e']) is None) by {
                if n >= 4 && v@.subrange(i as int, i + 4) == seq!['t', 'r', 'u', 'e'] {
                    let w = v@.subrange(i as int, i + 4);
                    assert(w[1] == v@[i + 1] && w[2] == v@[i + 2] && w[3] == v@[i + 3]);
                }
            }
            None
        }
    } else if v[i] == 'f' {
        if n >= 5 && v[i + 1] == 'a' && v[i + 2] == 'l' && v[i + 3] == 's' && v[i + 4] == 'e' {
            assert(v@.subrange(i as int, i + 5) == seq!['f', 'a', 'l', 's', 'e']);
            Some(i + 5)
        } else {
            assert(word_end(v@, i as int, seq!['f', 'a', 'l', 's', 'e']) is None) by {
                if n >= 5 && v@.subrange(i as int, i + 5) == seq!['f', 'a', 'l', 's', 'e'] {
                    let w = v@.subrange(i as int, i + 5);
                    assert(w[1] == v@[i + 1] && w[2] == v@[i + 2] && w[3] == v@[i + 3] && w[4]
                        == v@[i + 4]);
                }
            }
            None
        }
    } else if v[i] == 'n' {
        if n >= 4 && v[i + 1] == 'u' && v[i + 2] == 'l' && v[i + 3] == 'l' {
            assert(v@.subrange(i as int, i + 4) == seq!['n', 'u', 'l', 'l']);
            Some(i + 4)
        } else {
            assert(word_end(v@, i as int, seq!['n', 'u', 'l', 'l']) is None) by {
                if n >= 4 && v@.subrange(i as int, i + 4) == seq!['n', 'u', 'l', 'l'] {
                    let w = v@.subrange(i as int, i + 4);
                    assert(w[1] == v@[i + 1] && w[2] == v@[i + 2] && w[3] == v@[i + 3]);
                }
            }
            None
        }
    } else {
        find_number_end(v, i)
    }
}

fn find_member_value(v: &Vec<char>, i: usize) -> (r: Option<usize>)
    ensures
        r is Some <==> member_value(v@, i as int) is Some,
        r matches Some(k) ==> member_value(v@, i as int) == Some(k as int) && i < k <= v.len(),
{
    match find_string_end(v, i) {
        None => None,
        Some(k) => {
            let colon: usize = skip_blanks(v, k);
            if colon < v.len() && v[colon] == ':' {
                Some(skip_blanks(v, colon + 1))
            } else {
                None
            }
        },
    }
}

/// Where the outermost of nested objects and arrays ends, a value inside the
/// innermost having ended at `i`.
spec fn close_all(s: Seq<char>, open: Seq<bool>, i: int) -> Option<int>
    decreases open.len(),
{
    if open.len() == 0 {
        Some(i)
    } else {
        match rest_end(s, i, open.last()) {
            None => None,
            Some(k) => close_all(s, open.drop_last(), k),
        }
    }
}

/// The same, with a value still to come at `i`.
spec fn value_and_close_all(s: Seq<char>, open: Seq<bool>, i: int) -> Option<int> {
    match value_end(s, i) {
        None => None,
        Some(k) => close_all(s, open, k),
    }
}

/// Where the value that begins at `i` ends.
#[verifier::rlimit(50)]
fn find_value_end(v: &Vec<char>, i: usize) -> (r: Option<usize>)
    requires
        i < v.len(),
    ensures
        r is Some <==> value_end(v@, i as int) is Some,
        r matches Some(k) ==> value_end(v@, i as int) == Some(k as int) && i < k <= v.len(),
{
    let ghost s = v@;
    let mut open: Vec<bool> = Vec::new();
    let mut p: usize = i;
    let mut pending: bool = true;
    assert(open@ == Seq::<bool>::empty());
    loop
        invariant
            s == v@,
            i <= p <= v.len(),
            pending ==> p < v.len(),
            !pending ==> i < p,
            pending ==> value_end(s, i as int) == value_and_close_all(s, open@, p as int),
            !pending ==> value_end(s, i as int) == close_all(s, open@, p as int),
        decreases v.len() - p,
    {
        proof {
            lemma_value_end(s, i as int);
        }
        let ghost open0 = open@;
        if pending {
            if v[p] == '[' || v[p] == '{' {
                let object: bool = v[p] == '{';
                let first: usize = skip_blanks(v, p + 1);
                if first < v.len() && v[first] == (if object {
                    '}'
                } else {
                    ']'
                }) {
                    p = first + 1;
                    pending = false;
                } else {
                    let start: Option<usize> = if object {
                        find_member_value(v, first)
                    } else {
                        Some(first)
                    };
                    match start {
                        None => {
                            return None;
                        },
                        Some(q) => {
                            if q >= v.len() {
                                return None;
                            }
                            open.push(object);
                            proof {
                                assert(open@.drop_last() == open0);
                                lemma_value_end(s, q as int);
                            }
                            p = q;
                        },
                    }
                }
            } else {
                match find_scalar_end(v, p) {
                    None => {
                        return None;
                    },
                    Some(k) => {
                        p = k;
                        pending = false;
                    },
                }
            }
        } else {
            match open.pop() {
                None => {
                    return Some(p);
                },
                Some(object) => {
                    let next: usize = skip_blanks(v, p);
                    if next >= v.len() {
                        return None;
                    }
                    if v[next] == (if object {
                        '}'
                    } else {
                        ']'
                    }) {
                        p = next + 1;
                    } else if v[next] == ',' {
                        let item: usize = skip_blanks(v, next + 1);
                        let start: Option<usize> = if object {
                            find_member_value(v, item)
                        } else {
                            Some(item)
                        };
                        match start {
                            None => {
                                return None;
                            },
                            Some(q) => {
                                if q >= v.len() {
                                    return None;
                                }
                                open.push(object);
                                proof {
                                    assert(open@ == open0);
                                    lemma_value_end(s, q as int);
                                }
                                p = q;
                                pending = true;
                            },
                        }
                    } else {
                        return None;
                    }
                },
            }
        }
    }
}

/// Whether a text is a JSON object or array, with white space around it or not.
pub fn is_json_structure(v: &Vec<char>) -> (r: bool)
    ensures
        r == is_structure(v@),
{
    let i: usize = skip_blanks(v, 0);
    if i >= v.len() || (v[i] != '{' && v[i] != '[') {
        return false;
    }
    match find_value_end(v, i) {
        None => false,
        Some(k) => skip_blanks(v, k) == v.len(),
    }
}

} // verus!
