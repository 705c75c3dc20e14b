//! Numbers without arithmetic on them: which texts are numerals, how numbers
//! compare, and the table of readings that a caller supplies for numerals.

use vstd::prelude::*;

use crate::path::Modifier;
use crate::text::{chars_of, same_text};

verus! {

/// Where the run of decimal digits that starts at `i` ends.
pub open spec fn digits_end(s: Seq<char>, i: int) -> int
    decreases s.len() - i,
{
    if 0 <= i < s.len() && '0' <= s[i] <= '9' {
        digits_end(s, i + 1)
    } else {
        i
    }
}

/// Whether `s` spells a word, given in lower and in upper case, in any mix of
/// cases.
pub open spec fn spells(s: Seq<char>, lower: Seq<char>, upper: Seq<char>) -> bool {
    s.len() == lower.len() && forall|i: int|
        0 <= i < s.len() ==> #[trigger] s[i] == lower[i] || s[i] == upper[i]
}

/// Where the number stands behind an optional sign.
pub open spec fn sign_end(s: Seq<char>, i: int) -> int {
    if 0 <= i < s.len() && (s[i] == '+' || s[i] == '-') {
        i + 1
    } else {
        i
    }
}

/// Whether the part of `s` from `i` is a decimal numeral: digits, with or
/// without a point among or around them, then an optional exponent.
pub open spec fn decimal_from(s: Seq<char>, i: int) -> bool {
    let whole = digits_end(s, i);
    let point = 0 <= whole < s.len() && s[whole] == '.';
    let end = if point {
        digits_end(s, whole + 1)
    } else {
        whole
    };
    let has_digit = whole > i || (point && end > whole + 1);
    has_digit && (end == s.len() || exponent_from(s, end))
}

/// Whether the part of `s` from `i` is an exponent.
pub open spec fn exponent_from(s: Seq<char>, i: int) -> bool {
    0 <= i < s.len() && (s[i] == 'e' || s[i] == 'E') && {
        let digits = sign_end(s, i + 1);
        digits < s.len() && digits_end(s, digits) == s.len()
    }
}

/// Whether `s` is the numeral of a floating-point number: an optional sign,
/// then a decimal numeral or one of the words `inf`, `infinity` and `nan`.
pub open spec fn is_numeral(s: Seq<char>) -> bool {
    let start = sign_end(s, 0);
    let word = s.skip(start);
    ||| spells(word, seq!['i', 'n', 'f'], seq!['I', 'N', 'F'])
    ||| spells(
        word,
        seq!['i', 'n', 'f', 'i', 'n', 'i', 't', 'y'],
        seq!['I', 'N', 'F', 'I', 'N', 'I', 'T', 'Y'],
    )
    ||| spells(word, seq!['n', 'a', 'n'], seq!['N', 'A', 'N'])
    ||| decimal_from(s, start)
}

fn find_digits_end(s: &[char], from: usize) -> (r: usize)
    requires
        from <= s@.len(),
    ensures
        r == digits_end(s@, from as int),
        from <= r <= s@.len(),
{
    let mut i: usize = from;
    while i < s.len() && '0' <= s[i] && s[i] <= '9'
        invariant
            from <= i <= s@.len(),
            digits_end(s@, from as int) == digits_end(s@, i as int),
        decreases s@.len() - i,
    {
        i = i + 1;
    }
    i
}

fn find_sign_end(s: &[char], i: usize) -> (r: usize)
    requires
        i <= s@.len(),
    ensures
        r == sign_end(s@, i as int),
        i <= r <= s@.len(),
{
    if i < s.len() && (s[i] == '+' || s[i] == '-') {
        i + 1
    } else {
        i
    }
}

/// Whether the rest of `s` from `from` spells a word.
fn spells_word(s: &[char], from: usize, lower: &[char], upper: &[char]) -> (r: bool)
    requires
        from <= s@.len(),
        lower@.len() == upper@.len(),
    ensures
        r == spells(s@.skip(from as int), lower@, upper@),
{
    let ghost rest = s@.skip(from as int);
    if s.len() - from != lower.len() {
        return false;
    }
    let n = s.len();
    for i in 0..lower.len()
        invariant
            rest == s@.skip(from as int),
            n == s@.len(),
            from + lower@.len() == n,
            lower@.len() == upper@.len(),
            forall|j: int|
                0 <= j < i ==> #[trigger] rest[j] == lower@[j] || rest[j] == upper@[j],
    {
        let c = s[from + i];
        assert(c == rest[i as int]);
        if c != lower[i] && c != upper[i] {
            return false;
        }
    }
    true
}

fn is_decimal(s: &[char], i: usize) -> (r: bool)
    requires
        i <= s@.len(),
    ensures
        r == decimal_from(s@, i as int),
{
    let whole = find_digits_end(s, i);
    let point = whole < s.len() && s[whole] == '.';
    let end = if point {
        find_digits_end(s, whole + 1)
    } else {
        whole
    };
    if !(whole > i || (point && end > whole + 1)) {
        return false;
    }
    if end == s.len() {
        return true;
    }
    if s[end] != 'e' && s[end] != 'E' {
        return false;
    }
    let digits = find_sign_end(s, end + 1);
    digits < s.len() && find_digits_end(s, digits) == s.len()
}

/// Tells whether a text is a numeral.
pub fn reads_as_number(text: &str) -> (r: bool)
    ensures
        r == is_numeral(text@),
{
    let chars = chars_of(text);
    numeral_chars(chars.as_slice())
}

pub(crate) fn numeral_chars(s: &[char]) -> (r: bool)
    ensures
        r == is_numeral(s@),
{
    let start = find_sign_end(s, 0);
    let inf = ['i', 'n', 'f'];
    let upper_inf = ['I', 'N', 'F'];
    let infinity = ['i', 'n', 'f', 'i', 'n', 'i', 't', 'y'];
    let upper_infinity = ['I', 'N', 'F', 'I', 'N', 'I', 'T', 'Y'];
    let nan = ['n', 'a', 'n'];
    let upper_nan = ['N', 'A', 'N'];
    assert(inf@ =~= seq!['i', 'n', 'f']);
    assert(upper_inf@ =~= seq!['I', 'N', 'F']);
    assert(infinity@ =~= seq!['i', 'n', 'f', 'i', 'n', 'i', 't', 'y']);
    assert(upper_infinity@ =~= seq!['I', 'N', 'F', 'I', 'N', 'I', 'T', 'Y']);
    assert(nan@ =~= seq!['n', 'a', 'n']);
    assert(upper_nan@ =~= seq!['N', 'A', 'N']);
    spells_word(s, start, inf.as_slice(), upper_inf.as_slice()) || spells_word(
        s,
        start,
        infinity.as_slice(),
        upper_infinity.as_slice(),
    ) || spells_word(s, start, nan.as_slice(), upper_nan.as_slice()) || is_decimal(s, start)
}

/// The number that decimal digits stand for.
pub open spec fn digits_value(s: Seq<char>) -> nat
    decreases s.len(),
{
    if s.len() == 0 {
        0
    } else {
        digits_value(s.drop_last()) * 10 + digit_value(s.last())
    }
}

/// The number that a decimal digit stands for.
pub open spec fn digit_value(c: char) -> nat {
    if '0' <= c <= '9' {
        (c as u32 - '0' as u32) as nat
    } else {
        0
    }
}

/// Whether a text holds nothing but decimal digits.
pub open spec fn all_digits(s: Seq<char>) -> bool {
    forall|i: int| 0 <= i < s.len() ==> '0' <= #[trigger] s[i] <= '9'
}

/// The number that decimal digits stand for, unless it is too large.
pub(crate) fn parse_digits(s: &[char]) -> (r: Option<u64>)
    requires
        all_digits(s@),
    ensures
        match r {
            Some(n) => digits_value(s@) == n,
            None => digits_value(s@) > u64::MAX,
        },
{
    let mut value: u64 = 0;
    for i in 0..s.len()
        invariant
            all_digits(s@),
            value == digits_value(s@.take(i as int)),
    {
        assert(s@.take(i + 1).drop_last() =~= s@.take(i as int));
        assert(s@.take(i + 1).last() == s@[i as int]);
        let c = s[i];
        assert('0' <= c <= '9');
        let digit: u64 = (c as u32 - '0' as u32) as u64;
        proof {
            lemma_digits_grow(s@, i + 1, s@.len() as int);
            assert(s@.take(s@.len() as int) =~= s@);
        }
        match value.checked_mul(10) {
            Some(tens) => match tens.checked_add(digit) {
                Some(next) => {
                    value = next;
                },
                None => {
                    return None;
                },
            },
            None => {
                return None;
            },
        }
    }
    assert(s@.take(s@.len() as int) =~= s@);
    Some(value)
}

/// More digits make no smaller number.
proof fn lemma_digits_grow(s: Seq<char>, i: int, j: int)
    requires
        0 <= i <= j <= s.len(),
    ensures
        digits_value(s.take(i)) <= digits_value(s.take(j)),
    decreases j - i,
{
    if i < j {
        lemma_digits_grow(s, i, j - 1);
        assert(s.take(j).drop_last() =~= s.take(j - 1));
    }
}

/// Whether a text holds nothing but decimal digits.
pub(crate) fn has_only_digits(s: &[char]) -> (r: bool)
    ensures
        r == all_digits(s@),
{
    for i in 0..s.len()
        invariant
            forall|j: int| 0 <= j < i ==> '0' <= #[trigger] s@[j] <= '9',
    {
        if s[i] < '0' || s[i] > '9' {
            return false;
        }
    }
    true
}

/// The integer that a text stands for: decimal digits behind an optional sign.
pub open spec fn int_value(s: Seq<char>) -> Option<int> {
    let digits = s.skip(sign_end(s, 0));
    if digits.len() == 0 || !all_digits(digits) {
        None
    } else if s[0] == '-' {
        Some(-digits_value(digits))
    } else {
        Some(digits_value(digits) as int)
    }
}

/// The 64-bit integer that a text stands for.
pub open spec fn i64_value(s: Seq<char>) -> Option<i64> {
    match int_value(s) {
        Some(n) => if i64::MIN <= n <= i64::MAX {
            Some(n as i64)
        } else {
            None
        },
        None => None,
    }
}

/// Reads a 64-bit integer.
pub(crate) fn parse_i64(s: &[char]) -> (r: Option<i64>)
    ensures
        r == i64_value(s@),
{
    let start = find_sign_end(s, 0);
    let digits = crate::text::copy_range(s, start, s.len());
    assert(digits@ =~= s@.skip(start as int));
    if digits.len() == 0 || !has_only_digits(digits.as_slice()) {
        return None;
    }
    match parse_digits(digits.as_slice()) {
        Some(n) => {
            if s[0] == '-' {
                if n == 0x8000_0000_0000_0000 {
                    Some(i64::MIN)
                } else if n < 0x8000_0000_0000_0000 {
                    Some(-(n as i64))
                } else {
                    None
                }
            } else if n < 0x8000_0000_0000_0000 {
                Some(n as i64)
            } else {
                None
            }
        },
        None => None,
    }
}

/// A floating-point number, as far as comparing it needs: not a number, or its
/// place in the order of all numbers.
#[derive(Debug, Clone, Copy, PartialEq, Eq, Structural)]
pub enum Number {
    Nan,
    Value(i64),
}

/// The number that an IEEE 754 double with these bits stands for. Below the
/// sign bit the bits of a double grow with its magnitude, and those above the
/// bits of infinity are no numbers.
pub open spec fn number_of_bits(bits: u64) -> Number {
    let negative = bits >= 0x8000_0000_0000_0000;
    let magnitude = if negative {
        bits - 0x8000_0000_0000_0000
    } else {
        bits as int
    };
    if magnitude > 0x7ff0_0000_0000_0000 {
        Number::Nan
    } else if negative {
        Number::Value((-magnitude) as i64)
    } else {
        Number::Value(magnitude as i64)
    }
}

impl Number {
    /// Whether two numbers are equal; not-a-number equals nothing.
    pub open spec fn same(self, other: Number) -> bool {
        self matches Number::Value(a) && other matches Number::Value(b) && a == b
    }

    /// Whether this number is below the other; not-a-number is below nothing.
    pub open spec fn below(self, other: Number) -> bool {
        self matches Number::Value(a) && other matches Number::Value(b) && a < b
    }

    /// Reads the bits of an IEEE 754 double.
    pub fn from_bits(bits: u64) -> (n: Number)
        ensures
            n == number_of_bits(bits),
    {
        let negative = bits >= 0x8000_0000_0000_0000;
        let magnitude: u64 = if negative {
            bits - 0x8000_0000_0000_0000
        } else {
            bits
        };
        if magnitude > 0x7ff0_0000_0000_0000 {
            Number::Nan
        } else if negative {
            Number::Value(-(magnitude as i64))
        } else {
            Number::Value(magnitude as i64)
        }
    }

    pub fn equals(self, other: Number) -> (r: bool)
        ensures
            r == self.same(other),
    {
        match (self, other) {
            (Number::Value(a), Number::Value(b)) => a == b,
            _ => false,
        }
    }

    pub fn less(self, other: Number) -> (r: bool)
        ensures
            r == self.below(other),
    {
        match (self, other) {
            (Number::Value(a), Number::Value(b)) => a < b,
            _ => false,
        }
    }
}

/// What is known of numerals: the number that a numeral stands for, and the
/// outcome of an aggregate over a list of numerals.
#[derive(Debug)]
pub struct Readings {
    numbers: Vec<(String, Number)>,
    totals: Vec<(Modifier, Vec<String>, String)>,
}

/// The known numbers and totals.
pub struct ReadingsV {
    pub numbers: Map<Seq<char>, Number>,
    pub totals: Map<(Modifier, Seq<Seq<char>>), Seq<char>>,
}

/// The views of a list of strings.
pub open spec fn texts_view(texts: Seq<String>) -> Seq<Seq<char>> {
    Seq::new(texts.len(), |i: int| texts[i]@)
}

spec fn numbers_map(entries: Seq<(String, Number)>) -> Map<Seq<char>, Number>
    decreases entries.len(),
{
    if entries.len() == 0 {
        Map::empty()
    } else {
        numbers_map(entries.drop_last()).insert(entries.last().0@, entries.last().1)
    }
}

spec fn totals_map(entries: Seq<(Modifier, Vec<String>, String)>) -> Map<
    (Modifier, Seq<Seq<char>>),
    Seq<char>,
>
    decreases entries.len(),
{
    if entries.len() == 0 {
        Map::empty()
    } else {
        let last = entries.last();
        totals_map(entries.drop_last()).insert((last.0, texts_view(last.1@)), last.2@)
    }
}

/// Readings that know nothing.
pub open spec fn no_readings() -> ReadingsV {
    ReadingsV { numbers: Map::empty(), totals: Map::empty() }
}

impl View for Readings {
    type V = ReadingsV;

    closed spec fn view(&self) -> ReadingsV {
        ReadingsV { numbers: numbers_map(self.numbers@), totals: totals_map(self.totals@) }
    }
}

/// Whether two lists of strings hold the same texts.
pub(crate) fn same_texts(a: &Vec<String>, b: &Vec<String>) -> (r: bool)
    ensures
        r == (texts_view(a@) == texts_view(b@)),
{
    if a.len() != b.len() {
        assert(texts_view(a@).len() != texts_view(b@).len());
        return false;
    }
    for i in 0..a.len()
        invariant
            a@.len() == b@.len(),
            forall|j: int| 0 <= j < i ==> texts_view(a@)[j] == texts_view(b@)[j],
    {
        if !same_text(a[i].as_str(), b[i].as_str()) {
            assert(texts_view(a@)[i as int] != texts_view(b@)[i as int]);
            return false;
        }
    }
    assert(texts_view(a@) =~= texts_view(b@));
    true
}

impl Readings {
    /// Readings that know nothing.
    pub fn new() -> (r: Self)
        ensures
            r@ == no_readings(),
    {
        Readings { numbers: Vec::new(), totals: Vec::new() }
    }

    /// Records the number that a numeral stands for.
    pub fn add_number(&mut self, text: String, number: Number)
        ensures
            final(self)@ == (ReadingsV {
                numbers: old(self)@.numbers.insert(text@, number),
                totals: old(self)@.totals,
            }),
    {
        self.numbers.push((text, number));
        assert(self.numbers@.drop_last() =~= old(self).numbers@);
    }

    /// Records the outcome of an aggregate over a list of numerals.
    pub fn add_total(&mut self, modifier: Modifier, texts: Vec<String>, total: String)
        ensures
            final(self)@ == (ReadingsV {
                numbers: old(self)@.numbers,
                totals: old(self)@.totals.insert((modifier, texts_view(texts@)), total@),
            }),
    {
        self.totals.push((modifier, texts, total));
        assert(self.totals@.drop_last() =~= old(self).totals@);
    }

    /// The number that a numeral is known to stand for.
    pub fn number(&self, text: &str) -> (r: Option<Number>)
        ensures
            r == self@.numbers.get(text@),
    {
        let mut n: usize = self.numbers.len();
        assert(self.numbers@.take(n as int) =~= self.numbers@);
        while n > 0
            invariant
                n <= self.numbers@.len(),
                self@.numbers.get(text@) == numbers_map(self.numbers@.take(n as int)).get(text@),
            decreases n,
        {
            let ghost head = self.numbers@.take(n as int);
            assert(head.drop_last() =~= self.numbers@.take(n - 1));
            assert(head.last() == self.numbers@[n - 1]);
            n = n - 1;
            if same_text(self.numbers[n].0.as_str(), text) {
                return Some(self.numbers[n].1);
            }
        }
        None
    }

    /// The known outcome of an aggregate over a list of numerals.
    pub fn total(&self, modifier: Modifier, texts: &Vec<String>) -> (r: Option<&str>)
        ensures
            match r {
                Some(s) => self@.totals.get((modifier, texts_view(texts@))) == Some(s@),
                None => self@.totals.get((modifier, texts_view(texts@))) is None,
            },
    {
        let ghost key = (modifier, texts_view(texts@));
        let mut n: usize = self.totals.len();
        assert(self.totals@.take(n as int) =~= self.totals@);
        while n > 0
            invariant
                n <= self.totals@.len(),
                key == (modifier, texts_view(texts@)),
                self@.totals.get(key) == totals_map(self.totals@.take(n as int)).get(key),
            decreases n,
        {
            let ghost head = self.totals@.take(n as int);
            assert(head.drop_last() =~= self.totals@.take(n - 1));
            assert(head.last() == self.totals@[n - 1]);
            n = n - 1;
            if self.totals[n].0 == modifier && same_texts(&self.totals[n].1, texts) {
                return Some(self.totals[n].2.as_str());
            }
        }
        None
    }
}

/// A double above another has the greater number, on either side of zero.
pub proof fn law_bits_keep_order(a: u64, b: u64)
    requires
        a < b <= 0x7ff0_0000_0000_0000,
    ensures
        number_of_bits(a).below(number_of_bits(b)),
        number_of_bits((b + 0x8000_0000_0000_0000) as u64).below(
            number_of_bits((a + 0x8000_0000_0000_0000) as u64),
        ),
        number_of_bits(0).same(number_of_bits(0x8000_0000_0000_0000)),
{
}

} // verus!
