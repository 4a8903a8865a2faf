//! Reading unsigned numbers from text.
use crate::text::{copies, digit_char, digits, lemma_digits_are_digits};
use vstd::arithmetic::power::pow;
use vstd::prelude::*;
use vstd::string::StringExecFns;

verus! {

/// Why a text is not a number in range.
#[derive(Debug, Clone, Copy, PartialEq, Eq, Structural)]
pub enum NumberFault {
    /// There is nothing to read.
    Empty,
    /// A character is not a digit of the base.
    InvalidDigit,
    /// The number is above the largest one allowed.
    TooLarge,
}

impl NumberFault {
    /// The fault in words.
    pub open spec fn words(self) -> Seq<char> {
        match self {
            NumberFault::Empty => "cannot parse integer from empty string"@,
            NumberFault::InvalidDigit => "invalid digit found in string"@,
            NumberFault::TooLarge => "number too large to fit in target type"@,
        }
    }

    /// The fault in words.
    pub fn message(self) -> (s: String)
        ensures
            s@ == self.words(),
    {
        match self {
            NumberFault::Empty => String::from_str("cannot parse integer from empty string"),
            NumberFault::InvalidDigit => String::from_str("invalid digit found in string"),
            NumberFault::TooLarge => String::from_str("number too large to fit in target type"),
        }
    }
}

/// The value of a digit, in upper or lower case, of a base up to sixteen.
pub open spec fn digit_value(c: char, base: nat) -> Option<nat> {
    let v = if '0' <= c <= '9' {
        (c as nat - '0' as nat) as nat
    } else if 'a' <= c <= 'f' {
        (c as nat - 'a' as nat + 10) as nat
    } else if 'A' <= c <= 'F' {
        (c as nat - 'A' as nat + 10) as nat
    } else {
        16
    };
    if v < base {
        Some(v)
    } else {
        None
    }
}

/// What a run of digits means, read from left to right: its value, or the first
/// fault that is met.
pub open spec fn read_digits(s: Seq<char>, base: nat, max: nat) -> Result<nat, NumberFault>
    decreases s.len(),
{
    if s.len() == 0 {
        Ok(0)
    } else {
        match read_digits(s.drop_last(), base, max) {
            Err(e) => Err(e),
            Ok(v) => match digit_value(s.last(), base) {
                None => Err(NumberFault::InvalidDigit),
                Some(d) => if v * base + d > max {
                    Err(NumberFault::TooLarge)
                } else {
                    Ok(v * base + d)
                },
            },
        }
    }
}

/// What a text means as an unsigned number: digits, after a plus sign or not.
pub open spec fn read_number(s: Seq<char>, base: nat, max: nat) -> Result<nat, NumberFault> {
    if s.len() == 0 {
        Err(NumberFault::Empty)
    } else if s.len() == 1 && s[0] == '+' {
        Err(NumberFault::InvalidDigit)
    } else if s[0] == '+' {
        read_digits(s.skip(1), base, max)
    } else {
        read_digits(s, base, max)
    }
}

fn digit_value_of(c: char, base: u64) -> (r: Option<u64>)
    requires
        base <= 16,
    ensures
        r is Some <==> digit_value(c, base as nat) is Some,
        r matches Some(d) ==> digit_value(c, base as nat) == Some(d as nat) && d < base,
{
    let v: u64 = if c >= '0' && c <= '9' {
        c as u64 - 48
    } else if c >= 'a' && c <= 'f' {
        c as u64 - 97 + 10
    } else if c >= 'A' && c <= 'F' {
        c as u64 - 65 + 10
    } else {
        16
    };
    if v < base {
        Some(v)
    } else {
        None
    }
}

/// Once a prefix has a fault, the whole text has it.
pub proof fn lemma_fault_stays(s: Seq<char>, n: int, base: nat, max: nat)
    requires
        0 <= n <= s.len(),
        read_digits(s.take(n), base, max) is Err,
    ensures
        read_digits(s, base, max) == read_digits(s.take(n), base, max),
    decreases s.len() - n,
{
    if n == s.len() {
        assert(s.take(n) == s);
    } else {
        assert(s.take(n + 1).drop_last() == s.take(n));
        lemma_fault_stays(s, n + 1, base, max);
    }
}

/// Reads the characters from `from` on as digits.
fn parse_digits(v: &Vec<char>, from: usize, base: u64, max: u64) -> (r: Result<u64, NumberFault>)
    requires
        from <= v.len(),
        2 <= base <= 16,
    ensures
        match r {
            Ok(n) => read_digits(v@.skip(from as int), base as nat, max as nat) == Ok::<
                nat,
                NumberFault,
            >(n as nat),
            Err(e) => read_digits(v@.skip(from as int), base as nat, max as nat) == Err::<
                nat,
                NumberFault,
            >(e),
        },
{
    let ghost body = v@.skip(from as int);
    let mut acc: u64 = 0;
    let mut i: usize = from;
    while i < v.len()
        invariant
            from <= i <= v.len(),
            2 <= base <= 16,
            body == v@.skip(from as int),
            read_digits(body.take(i - from), base as nat, max as nat) == Ok::<nat, NumberFault>(
                acc as nat,
            ),
            acc <= max,
        decreases v.len() - i,
    {
        assert(body.take(i + 1 - from).drop_last() == body.take(i - from));
        assert(body.take(i + 1 - from).last() == v@[i as int]);
        match digit_value_of(v[i], base) {
            None => {
                proof {
                    lemma_fault_stays(body, i + 1 - from, base as nat, max as nat);
                }
                return Err(NumberFault::InvalidDigit);
            },
            Some(d) => {
                assert(0 <= acc * base <= u64::MAX * 16) by (nonlinear_arith)
                    requires
                        0 <= acc <= u64::MAX,
                        0 <= base <= 16,
                ;
                let next: u128 = acc as u128 * base as u128 + d as u128;
                if next > max as u128 {
                    proof {
                        lemma_fault_stays(body, i + 1 - from, base as nat, max as nat);
                    }
                    return Err(NumberFault::TooLarge);
                }
                acc = next as u64;
            },
        }
        i += 1;
    }
    assert(body.take(v.len() - from) == body);
    Ok(acc)
}

/// Reads an unsigned number that is at most `max`.
pub fn parse_number(v: &Vec<char>, base: u64, max: u64) -> (r: Result<u64, NumberFault>)
    requires
        2 <= base <= 16,
    ensures
        match r {
            Ok(n) => read_number(v@, base as nat, max as nat) == Ok::<nat, NumberFault>(n as nat),
            Err(e) => read_number(v@, base as nat, max as nat) == Err::<nat, NumberFault>(e),
        },
{
    if v.len() == 0 {
        return Err(NumberFault::Empty);
    }
    if v[0] == '+' {
        if v.len() == 1 {
            return Err(NumberFault::InvalidDigit);
        }
        return parse_digits(v, 1, base, max);
    }
    assert(v@.skip(0) == v@);
    parse_digits(v, 0, base, max)
}

/// A digit's value can be read from its character.
proof fn lemma_digit_reads_back(d: nat, base: nat)
    requires
        d < base <= 16,
    ensures
        digit_value(digit_char(d), base) == Some(d),
{
}

/// Digits in front of which zeros stand mean the same.
proof fn lemma_leading_zeros(s: Seq<char>, zeros: nat, base: nat, max: nat)
    requires
        0 < base <= 16,
    ensures
        read_digits(copies('0', zeros) + s, base, max) == read_digits(s, base, max),
    decreases zeros + s.len(),
{
    let whole = copies('0', zeros) + s;
    if s.len() > 0 {
        lemma_leading_zeros(s.drop_last(), zeros, base, max);
        assert(whole.drop_last() == copies('0', zeros) + s.drop_last());
        assert(whole.last() == s.last());
    } else if zeros > 0 {
        let fewer = (zeros - 1) as nat;
        lemma_leading_zeros(s, fewer, base, max);
        assert(whole.drop_last() == copies('0', fewer) + s);
        assert(whole.last() == '0');
        assert(digit_value('0', base) == Some(0nat));
        assert(0 * base == 0) by (nonlinear_arith);
    } else {
        assert(whole == s);
    }
}

/// Law: a number that was written in digits reads back as itself, also with zeros in
/// front of it.
pub proof fn law_digits_read_back(n: nat, zeros: nat, base: nat, max: nat)
    requires
        n <= max,
        2 <= base <= 16,
    ensures
        read_digits(copies('0', zeros) + digits(n, base), base, max) == Ok::<nat, NumberFault>(n),
        read_number(digits(n, base), base, max) == Ok::<nat, NumberFault>(n),
{
    lemma_digits_read_back(n, base, max);
    lemma_leading_zeros(digits(n, base), zeros, base, max);
    lemma_digits_are_digits(n, base);
}

proof fn lemma_digits_read_back(n: nat, base: nat, max: nat)
    requires
        n <= max,
        2 <= base <= 16,
    ensures
        read_digits(digits(n, base), base, max) == Ok::<nat, NumberFault>(n),
    decreases n,
{
    let s = digits(n, base);
    if n < base {
        assert(s.drop_last() == Seq::<char>::empty());
        assert(read_digits(s.drop_last(), base, max) == Ok::<nat, NumberFault>(0));
        assert(s.last() == digit_char(n));
        lemma_digit_reads_back(n, base);
        assert(0 * base == 0) by (nonlinear_arith);
    } else {
        assert(n / base < n && n % base < base && (n / base) * base + n % base == n)
            by (nonlinear_arith)
            requires
                2 <= base <= n,
        ;
        lemma_digits_read_back(n / base, base, max);
        assert(s.drop_last() == digits(n / base, base));
        assert(s.last() == digit_char(n % base));
        lemma_digit_reads_back(n % base, base);
    }
}

/// What a character is worth as a digit, or -1.
pub open spec fn face(c: char) -> int {
    if 48 <= c as int <= 57 {
        c as int - 48
    } else if 97 <= c as int <= 102 {
        c as int - 87
    } else if 65 <= c as int <= 70 {
        c as int - 55
    } else {
        -1
    }
}

/// Whether a text is digits of a base.
pub open spec fn faces(s: Seq<char>, base: int) -> bool {
    forall|i: int| 0 <= i < s.len() ==> 0 <= face(#[trigger] s[i]) < base
}

/// What digits are worth: each as many times the base as digits follow it.
pub open spec fn meaning(s: Seq<char>, base: int) -> int
    decreases s.len(),
{
    if s.len() == 0 {
        0
    } else {
        face(s[0]) * pow(base, (s.len() - 1) as nat) + meaning(s.skip(1), base)
    }
}

proof fn lemma_meaning_step(s: Seq<char>, base: int)
    requires
        s.len() > 0,
    ensures
        meaning(s, base) == meaning(s.drop_last(), base) * base + face(s.last()),
    decreases s.len(),
{
    if s.len() == 1 {
        reveal(pow);
        assert(s.skip(1) == Seq::<char>::empty());
        assert(s.drop_last() == Seq::<char>::empty());
        assert(pow(base, 0) == 1);
        assert(face(s[0]) * 1 == face(s[0]) && 0 * base == 0) by (nonlinear_arith);
    } else {
        let rest = s.skip(1);
        let front = s.drop_last();
        lemma_meaning_step(rest, base);
        assert(rest.drop_last() == front.skip(1));
        assert(rest.last() == s.last());
        assert(front[0] == s[0]);
        let n = (s.len() - 2) as nat;
        let f = face(s[0]);
        let p = pow(base, n);
        let m = meaning(rest.drop_last(), base);
        reveal(pow);
        assert(pow(base, (n + 1) as nat) == base * p);
        assert(f * (base * p) + m * base == (f * p + m) * base) by (nonlinear_arith);
    }
}

proof fn lemma_meaning_grows(s: Seq<char>, base: int)
    requires
        base >= 2,
        faces(s, base),
    ensures
        meaning(s, base) >= 0,
        s.len() > 0 ==> meaning(s.drop_last(), base) <= meaning(s, base),
        s.len() > 0 ==> faces(s.drop_last(), base),
    decreases s.len(),
{
    if s.len() > 0 {
        let front = s.drop_last();
        assert forall|i: int| 0 <= i < front.len() implies 0 <= face(#[trigger] front[i])
            < base by {
            assert(front[i] == s[i]);
        }
        lemma_meaning_grows(front, base);
        lemma_meaning_step(s, base);
        let m = meaning(front, base);
        assert(0 <= face(s[s.len() - 1]));
        assert(m * base >= m) by (nonlinear_arith)
            requires
                m >= 0,
                base >= 2,
        ;
    }
}

/// What digits are worth is not below zero.
pub proof fn lemma_meaning_is_natural(s: Seq<char>, base: int)
    requires
        base >= 2,
        faces(s, base),
    ensures
        meaning(s, base) >= 0,
{
    lemma_meaning_grows(s, base);
}

proof fn lemma_digits_mean(s: Seq<char>, base: nat, max: nat)
    requires
        2 <= base <= 16,
    ensures
        faces(s, base as int) && meaning(s, base as int) <= max ==> read_digits(s, base, max)
            == Ok::<nat, NumberFault>(meaning(s, base as int) as nat),
        faces(s, base as int) && meaning(s, base as int) > max ==> read_digits(s, base, max)
            == Err::<nat, NumberFault>(NumberFault::TooLarge),
        !faces(s, base as int) ==> read_digits(s, base, max) is Err,
    decreases s.len(),
{
    if s.len() > 0 {
        let front = s.drop_last();
        lemma_digits_mean(front, base, max);
        lemma_meaning_step(s, base as int);
        if faces(s, base as int) {
            lemma_meaning_grows(s, base as int);
            lemma_meaning_grows(front, base as int);
            assert(face(s[s.len() - 1]) >= 0);
            let m = meaning(front, base as int);
            assert(m as nat * base == m * base as int) by (nonlinear_arith)
                requires
                    m >= 0,
            ;
            assert(digit_value(s.last(), base) == Some(face(s.last()) as nat));
        } else if faces(front, base as int) {
            assert(!(0 <= face(s.last()) < base)) by {
                if 0 <= face(s.last()) < base {
                    assert forall|i: int| 0 <= i < s.len() implies 0 <= face(#[trigger] s[i])
                        < base by {
                        if i < s.len() - 1 {
                            assert(s[i] == front[i]);
                        }
                    }
                }
            }
            assert(digit_value(s.last(), base) is None);
        }
    }
}

/// Law: digits are read as what they are worth, in upper or lower case; above the largest
/// number allowed they are refused as too large, and anything else than digits is refused.
pub proof fn law_number_is_what_its_digits_are_worth(s: Seq<char>, base: nat, max: nat)
    requires
        2 <= base <= 16,
        s.len() > 0,
        s[0] != '+',
    ensures
        faces(s, base as int) && meaning(s, base as int) <= max ==> read_number(s, base, max)
            == Ok::<nat, NumberFault>(meaning(s, base as int) as nat),
        faces(s, base as int) && meaning(s, base as int) > max ==> read_number(s, base, max)
            == Err::<nat, NumberFault>(NumberFault::TooLarge),
        !faces(s, base as int) ==> read_number(s, base, max) is Err,
{
    lemma_digits_mean(s, base, max);
}

/// Law: a plus sign in front of a number changes nothing; alone, or in front of another, it is
/// refused, as is a text without any character.
pub proof fn law_plus_sign_changes_nothing(s: Seq<char>, base: nat, max: nat)
    requires
        2 <= base <= 16,
    ensures
        s.len() > 0 && s[0] != '+' ==> read_number(seq!['+'] + s, base, max) == read_number(
            s,
            base,
            max,
        ),
        s.len() > 0 && s[0] == '+' ==> read_number(seq!['+'] + s, base, max) is Err,
        read_number(seq!['+'], base, max) == Err::<nat, NumberFault>(NumberFault::InvalidDigit),
        read_number(Seq::empty(), base, max) == Err::<nat, NumberFault>(NumberFault::Empty),
{
    assert((seq!['+'] + s).skip(1) == s);
    if s.len() > 0 && s[0] == '+' {
        lemma_digits_mean(s, base, max);
        assert(face(s[0]) == -1);
        assert(!faces(s, base as int));
    }
}

/// Law: the first character that is no digit is what a text is refused for, if what stands in
/// front of it is in range.
pub proof fn law_first_fault_is_named(s: Seq<char>, c: char, rest: Seq<char>, base: nat, max: nat)
    requires
        2 <= base <= 16,
        s.len() > 0,
        faces(s, base as int),
        meaning(s, base as int) <= max,
        !(0 <= face(c) < base),
    ensures
        read_number(s.push(c) + rest, base, max) == Err::<nat, NumberFault>(
            NumberFault::InvalidDigit,
        ),
{
    let t = s.push(c) + rest;
    assert(0 <= face(s[0]));
    assert(t[0] == s[0]);
    lemma_digits_mean(s, base, max);
    let n = s.len() + 1;
    assert(t.take(n as int) == s.push(c));
    assert(s.push(c).drop_last() == s);
    assert(digit_value(c, base) is None);
    lemma_fault_stays(t, n as int, base, max);
}

/// Law: the digits that a number is written in are worth the number. None of them is a zero in
/// front of others, and letters are in upper case.
pub proof fn law_digits_are_worth_the_number(n: nat, base: nat)
    requires
        2 <= base <= 16,
    ensures
        digits(n, base).len() > 0,
        faces(digits(n, base), base as int),
        meaning(digits(n, base), base as int) == n,
        digits(n, base).len() > 1 ==> digits(n, base)[0] as int != 48,
        n > 0 ==> digits(n, base)[0] as int != 48,
        forall|i: int|
            0 <= i < digits(n, base).len() ==> (#[trigger] digits(n, base)[i]) as int <= 70,
    decreases n,
{
    let s = digits(n, base);
    lemma_meaning_step(s, base as int);
    if n < base {
        assert(s.drop_last() == Seq::<char>::empty());
        assert(0 * base == 0) by (nonlinear_arith);
    } else {
        assert(n / base < n && n % base < base && (n / base) * base + n % base == n && n / base
            > 0) by (nonlinear_arith)
            requires
                2 <= base <= n,
        ;
        law_digits_are_worth_the_number(n / base, base);
        let front = digits(n / base, base);
        assert(s.drop_last() == front);
        assert forall|i: int| 0 <= i < s.len() implies 0 <= face(#[trigger] s[i]) < base by {
            if i < s.len() - 1 {
                assert(s[i] == front[i]);
            }
        }
    }
}

} // verus!
