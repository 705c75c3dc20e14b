//! What holds of the comparisons in filters, and of the numerals that they
//! compare.

use vstd::prelude::*;

use crate::number::{
    all_digits, decimal_from, digits_end, exponent_from, is_numeral, number_of_bits, sign_end,
    spells, Number, ReadingsV,
};
use crate::path::{FilterOp, ValueV};
use crate::semantics::compare;
use crate::text::trimmed;
use crate::wildcard::{glob, has_wildcard, unescaped};

verus! {

/// `==` against a text holds of that text and of no other, and asks for no
/// number.
pub proof fn law_text_equals_itself_alone(raw: Seq<char>, s: Seq<char>, known: ReadingsV)
    ensures
        compare(raw, FilterOp::Eq, ValueV::Text(s), known) == (
            raw == s,
            Seq::<Seq<char>>::empty(),
        ),
        compare(raw, FilterOp::Ne, ValueV::Text(s), known) == (
            raw != s,
            Seq::<Seq<char>>::empty(),
        ),
{
    reveal_with_fuel(compare, 2);
}

/// `==` against a truth value holds of the text that spells it, and of no
/// other.
pub proof fn law_truth_value_equals_its_spelling(raw: Seq<char>, b: bool, known: ReadingsV)
    ensures
        ({
            let spelling = if b {
                "true"@
            } else {
                "false"@
            };
            &&& compare(raw, FilterOp::Eq, ValueV::Bool(b), known) == (
                raw == spelling,
                Seq::<Seq<char>>::empty(),
            )
            &&& compare(raw, FilterOp::Ne, ValueV::Bool(b), known) == (
                raw != spelling,
                Seq::<Seq<char>>::empty(),
            )
        }),
{
    reveal_with_fuel(compare, 2);
    reveal_strlit("true");
    reveal_strlit("false");
    assert("true"@ =~= seq!['t', 'r', 'u', 'e']);
    assert("false"@ =~= seq!['f', 'a', 'l', 's', 'e']);
}

/// `%` matches the whole of a text with a glob, or with a literal where the
/// pattern has no wildcards; `!%` holds where that fails. Only patterns match.
pub proof fn law_percent_matches_the_pattern(
    raw: Seq<char>,
    pattern: Seq<char>,
    n: Seq<char>,
    b: bool,
    known: ReadingsV,
)
    ensures
        ({
            let matched = if has_wildcard(pattern) {
                glob(pattern, raw)
            } else {
                unescaped(pattern) == raw
            };
            let none = Seq::<Seq<char>>::empty();
            &&& compare(raw, FilterOp::GlobMatch, ValueV::Text(pattern), known) == (matched, none)
            &&& compare(raw, FilterOp::GlobNotMatch, ValueV::Text(pattern), known) == (
                !matched,
                none,
            )
            &&& compare(raw, FilterOp::GlobMatch, ValueV::Number(n), known) == (false, none)
            &&& compare(raw, FilterOp::GlobMatch, ValueV::Bool(b), known) == (false, none)
            &&& compare(raw, FilterOp::GlobNotMatch, ValueV::Number(n), known) == (false, none)
            &&& compare(raw, FilterOp::GlobNotMatch, ValueV::Bool(b), known) == (false, none)
        }),
{
}

/// The order against a text is the order against the number that the text is a
/// numeral of.
pub proof fn law_order_against_text_is_by_number(
    raw: Seq<char>,
    op: FilterOp,
    s: Seq<char>,
    known: ReadingsV,
)
    requires
        op == FilterOp::Lt || op == FilterOp::Le || op == FilterOp::Gt || op == FilterOp::Ge,
    ensures
        compare(raw, op, ValueV::Text(s), known) == compare(raw, op, ValueV::Number(s), known),
{
}

/// What holds of a number and another, by an operator.
pub open spec fn holds(op: FilterOp, a: int, b: int) -> bool {
    match op {
        FilterOp::Eq => a == b,
        FilterOp::Ne => a != b,
        FilterOp::Lt => a < b,
        FilterOp::Le => a <= b,
        FilterOp::Gt => a > b,
        FilterOp::Ge => a >= b,
        _ => false,
    }
}

/// Numbers that are known are compared by their order, with white space around
/// their numerals or without it.
pub proof fn law_known_numbers_are_compared(
    raw: Seq<char>,
    op: FilterOp,
    value: Seq<char>,
    known: ReadingsV,
)
    requires
        op != FilterOp::GlobMatch && op != FilterOp::GlobNotMatch,
        is_numeral(trimmed(raw)),
        is_numeral(trimmed(value)),
        known.numbers.contains_key(trimmed(raw)),
        known.numbers.contains_key(trimmed(value)),
    ensures
        compare(raw, op, ValueV::Number(value), known) == (
            match (known.numbers[trimmed(raw)], known.numbers[trimmed(value)]) {
                (Number::Value(a), Number::Value(b)) => holds(op, a as int, b as int),
                _ => op == FilterOp::Ne,
            },
            Seq::<Seq<char>>::empty(),
        ),
{
    reveal_with_fuel(compare, 2);
}

/// Numerals whose numbers are not known are asked for, the one of the document
/// first, and the comparison does not hold until they are.
pub proof fn law_unknown_numbers_are_asked_for(
    raw: Seq<char>,
    op: FilterOp,
    value: Seq<char>,
    known: ReadingsV,
)
    requires
        op != FilterOp::GlobMatch && op != FilterOp::GlobNotMatch,
        is_numeral(trimmed(raw)),
        is_numeral(trimmed(value)),
        !known.numbers.contains_key(trimmed(raw)) || !known.numbers.contains_key(trimmed(value)),
    ensures
        compare(raw, op, ValueV::Number(value), known) == (
            false,
            if known.numbers.contains_key(trimmed(raw)) {
                seq![trimmed(value)]
            } else if known.numbers.contains_key(trimmed(value)) {
                seq![trimmed(raw)]
            } else {
                seq![trimmed(raw), trimmed(value)]
            },
        ),
{
    reveal_with_fuel(compare, 2);
    let none = Seq::<Seq<char>>::empty();
    assert(none.push(trimmed(value)) =~= seq![trimmed(value)]);
    assert(seq![trimmed(raw)].push(trimmed(value)) =~= seq![trimmed(raw), trimmed(value)]);
}

/// What is no numeral is unequal to every number, and neither below nor above.
pub proof fn law_other_texts_are_unequal_to_numbers(
    raw: Seq<char>,
    op: FilterOp,
    value: Seq<char>,
    known: ReadingsV,
)
    requires
        op != FilterOp::GlobMatch && op != FilterOp::GlobNotMatch,
        !is_numeral(trimmed(raw)) || !is_numeral(trimmed(value)),
    ensures
        compare(raw, op, ValueV::Number(value), known) == (
            op == FilterOp::Ne,
            Seq::<Seq<char>>::empty(),
        ),
{
    reveal_with_fuel(compare, 2);
}

/// Whether a text is a sign or nothing.
pub open spec fn is_sign(s: Seq<char>) -> bool {
    s.len() == 0 || s == seq!['+'] || s == seq!['-']
}

/// Whether a text is an exponent or nothing.
pub open spec fn is_exponent(s: Seq<char>, sign: Seq<char>, digits: Seq<char>) -> bool {
    ||| s.len() == 0
    ||| is_sign(sign) && all_digits(digits) && digits.len() > 0 && (s == seq!['e'] + sign + digits
        || s == seq!['E'] + sign + digits)
}

proof fn lemma_digits_run(s: Seq<char>, i: int, j: int)
    requires
        0 <= i <= j <= s.len(),
        forall|k: int| i <= k < j ==> '0' <= #[trigger] s[k] <= '9',
        j < s.len() ==> !('0' <= s[j] <= '9'),
    ensures
        digits_end(s, i) == j,
    decreases j - i,
{
    if i < j {
        assert('0' <= s[i] <= '9');
        lemma_digits_run(s, i + 1, j);
    }
}

proof fn lemma_digits_end(s: Seq<char>, i: int)
    requires
        0 <= i <= s.len(),
    ensures
        i <= digits_end(s, i) <= s.len(),
        forall|k: int| i <= k < digits_end(s, i) ==> '0' <= #[trigger] s[k] <= '9',
        digits_end(s, i) < s.len() ==> !('0' <= s[digits_end(s, i)] <= '9'),
    decreases s.len() - i,
{
    if i < s.len() && '0' <= s[i] <= '9' {
        lemma_digits_end(s, i + 1);
    }
}

/// A sign or none, digits with or without a point among or around them, and an
/// exponent or none make a numeral.
pub proof fn law_decimals_are_numerals(
    sign: Seq<char>,
    whole: Seq<char>,
    point: bool,
    fraction: Seq<char>,
    exponent: Seq<char>,
    exponent_sign: Seq<char>,
    exponent_digits: Seq<char>,
)
    requires
        is_sign(sign),
        all_digits(whole),
        all_digits(fraction),
        whole.len() + fraction.len() > 0,
        !point ==> fraction.len() == 0,
        is_exponent(exponent, exponent_sign, exponent_digits),
    ensures
        is_numeral(
            sign + whole + (if point {
                seq!['.']
            } else {
                seq![]
            }) + fraction + exponent,
        ),
{
    let dot: Seq<char> = if point {
        seq!['.']
    } else {
        seq![]
    };
    let s = sign + whole + dot + fraction + exponent;
    let a = sign.len() as int;
    let b = a + whole.len();
    let c = b + dot.len();
    let e = c + fraction.len();
    assert forall|k: int| a <= k < b implies '0' <= #[trigger] s[k] <= '9' by {
        assert(s[k] == whole[k - a]);
    }
    assert forall|k: int| c <= k < e implies '0' <= #[trigger] s[k] <= '9' by {
        assert(s[k] == fraction[k - c]);
    }
    if exponent.len() > 0 {
        assert(s[e] == exponent[0]);
    }
    if point {
        assert(s[b] == '.');
    }
    assert(sign_end(s, 0) == a) by {
        if sign.len() > 0 {
            assert(s[0] == sign[0]);
        } else if whole.len() > 0 {
            assert('0' <= s[0] <= '9');
        } else {
            assert(s[0] == '.');
        }
    }
    lemma_digits_run(s, a, b);
    if point {
        lemma_digits_run(s, c, e);
    }
    if exponent.len() > 0 {
        let x = e + 1;
        let y = x + exponent_sign.len();
        assert(s.len() == y + exponent_digits.len());
        if exponent_sign.len() > 0 {
            assert(s[x] == exponent[1]);
            assert(exponent[1] == exponent_sign[0]);
        } else {
            assert(s[x] == exponent[1]);
            assert(exponent[1] == exponent_digits[0]);
            assert('0' <= exponent_digits[0] <= '9');
        }
        assert(sign_end(s, x) == y);
        assert forall|k: int| y <= k < s.len() implies '0' <= #[trigger] s[k] <= '9' by {
            assert(s[k] == exponent[k - e]);
            assert(exponent[k - e] == exponent_digits[k - y]);
        }
        lemma_digits_run(s, y, s.len() as int);
        assert(exponent_from(s, e));
    }
    assert(decimal_from(s, a));
}

/// Whether a text is one of the words for what no decimal numeral stands for,
/// in any mix of cases.
pub open spec fn is_word(s: Seq<char>) -> bool {
    ||| spells(s, seq!['i', 'n', 'f'], seq!['I', 'N', 'F'])
    ||| spells(
        s,
        seq!['i', 'n', 'f', 'i', 'n', 'i', 't', 'y'],
        seq!['I', 'N', 'F', 'I', 'N', 'I', 'T', 'Y'],
    )
    ||| spells(s, seq!['n', 'a', 'n'], seq!['N', 'A', 'N'])
}

/// A sign or none and a word make a numeral.
pub proof fn law_words_are_numerals(sign: Seq<char>, word: Seq<char>)
    requires
        is_sign(sign),
        is_word(word),
    ensures
        is_numeral(sign + word),
{
    let s = sign + word;
    if sign.len() > 0 {
        assert(s[0] == sign[0]);
    } else {
        assert(s[0] == word[0]);
        assert(word[0] != '+' && word[0] != '-');
    }
    assert(s.skip(sign.len() as int) =~= word);
}

/// The parts of a numeral.
pub struct NumeralParts {
    pub sign: Seq<char>,
    pub word: Seq<char>,
    pub whole: Seq<char>,
    pub point: bool,
    pub fraction: Seq<char>,
    pub exponent: Seq<char>,
    pub exponent_sign: Seq<char>,
    pub exponent_digits: Seq<char>,
}

/// Every numeral is made of a sign or none, and of a word, or of digits with or
/// without a point and an exponent or none.
pub proof fn law_numerals_have_parts(s: Seq<char>) -> (p: NumeralParts)
    requires
        is_numeral(s),
    ensures
        is_sign(p.sign),
        ({
            ||| is_word(p.word) && s == p.sign + p.word
            ||| {
                &&& all_digits(p.whole)
                &&& all_digits(p.fraction)
                &&& p.whole.len() + p.fraction.len() > 0
                &&& !p.point ==> p.fraction.len() == 0
                &&& is_exponent(p.exponent, p.exponent_sign, p.exponent_digits)
                &&& s == p.sign + p.whole + (if p.point {
                    seq!['.']
                } else {
                    seq![]
                }) + p.fraction + p.exponent
            }
        }),
{
    let a = sign_end(s, 0);
    let sign = s.take(a);
    let word = s.skip(a);
    assert(is_sign(sign)) by {
        if a > 0 {
            assert(sign =~= seq![s[0]]);
        }
    }
    assert(s =~= sign + word);
    if is_word(word) {
        let none = Seq::<char>::empty();
        NumeralParts {
            sign,
            word,
            whole: none,
            point: false,
            fraction: none,
            exponent: none,
            exponent_sign: none,
            exponent_digits: none,
        }
    } else {
        lemma_decimal_parts(s, a)
    }
}

proof fn lemma_decimal_parts(s: Seq<char>, a: int) -> (p: NumeralParts)
    requires
        0 <= a <= s.len(),
        decimal_from(s, a),
    ensures
        p.sign == s.take(a),
        all_digits(p.whole),
        all_digits(p.fraction),
        p.whole.len() + p.fraction.len() > 0,
        !p.point ==> p.fraction.len() == 0,
        is_exponent(p.exponent, p.exponent_sign, p.exponent_digits),
        s == p.sign + p.whole + (if p.point {
            seq!['.']
        } else {
            seq![]
        }) + p.fraction + p.exponent,
{
    lemma_digits_end(s, a);
    let b = digits_end(s, a);
    let point = b < s.len() && s[b] == '.';
    let c = if point {
        b + 1
    } else {
        b
    };
    lemma_digits_end(s, c);
    let e = if point {
        digits_end(s, c)
    } else {
        b
    };
    let whole = s.subrange(a, b);
    let fraction = s.subrange(c, e);
    let exponent = s.skip(e);
    let dot: Seq<char> = if point {
        seq!['.']
    } else {
        seq![]
    };
    assert forall|k: int| 0 <= k < whole.len() implies '0' <= #[trigger] whole[k] <= '9' by {
        assert(whole[k] == s[a + k]);
    }
    assert forall|k: int| 0 <= k < fraction.len() implies '0' <= #[trigger] fraction[k]
        <= '9' by {
        assert(fraction[k] == s[c + k]);
    }
    assert(s =~= s.take(a) + whole + dot + fraction + exponent);
    let (exponent_sign, exponent_digits) = if e < s.len() {
        lemma_exponent_parts(s, e)
    } else {
        (Seq::<char>::empty(), Seq::<char>::empty())
    };
    NumeralParts {
        sign: s.take(a),
        word: Seq::empty(),
        whole,
        point,
        fraction,
        exponent,
        exponent_sign,
        exponent_digits,
    }
}

proof fn lemma_exponent_parts(s: Seq<char>, e: int) -> (r: (Seq<char>, Seq<char>))
    requires
        exponent_from(s, e),
    ensures
        is_exponent(s.skip(e), r.0, r.1),
{
    let x = e + 1;
    let y = sign_end(s, x);
    let sign = s.subrange(x, y);
    let digits = s.skip(y);
    lemma_digits_end(s, y);
    assert forall|k: int| 0 <= k < digits.len() implies '0' <= #[trigger] digits[k] <= '9' by {
        assert(digits[k] == s[y + k]);
    }
    if y > x {
        assert(sign =~= seq![s[x]]);
    }
    assert(s.skip(e) =~= seq![s[e]] + sign + digits);
    (sign, digits)
}

/// The bits of doubles from zero to infinity stand for numbers in that order,
/// the same bits with the sign for their negatives, and the bits above infinity
/// for no number.
pub proof fn law_bits_stand_for_numbers(a: u64, b: u64)
    requires
        a <= 0x7fff_ffff_ffff_ffff,
        b <= 0x7fff_ffff_ffff_ffff,
    ensures
        ({
            let minus = |n: u64| (n + 0x8000_0000_0000_0000) as u64;
            let finite = |n: u64| n <= 0x7ff0_0000_0000_0000;
            &&& number_of_bits(a) == Number::Nan <==> !finite(a)
            &&& number_of_bits(minus(a)) == Number::Nan <==> !finite(a)
            &&& finite(a) && finite(b) ==> {
                &&& number_of_bits(a).below(number_of_bits(b)) == (a < b)
                &&& number_of_bits(a).same(number_of_bits(b)) == (a == b)
                &&& number_of_bits(minus(a)).below(number_of_bits(minus(b))) == (b < a)
                &&& number_of_bits(minus(a)).same(number_of_bits(minus(b))) == (a == b)
                &&& number_of_bits(minus(a)).below(number_of_bits(b)) == (a > 0 || b > 0)
                &&& !number_of_bits(a).below(number_of_bits(minus(b)))
                &&& number_of_bits(a).same(number_of_bits(minus(b))) == (a == 0 && b == 0)
            }
        }),
{
}

/// Not-a-number is neither below, above nor the same as anything.
pub proof fn law_nan_compares_with_nothing(n: Number)
    ensures
        !Number::Nan.below(n),
        !n.below(Number::Nan),
        !Number::Nan.same(n),
        !n.same(Number::Nan),
{
}

} // verus!
