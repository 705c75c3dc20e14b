//! What holds of texts: white space, decimal numerals, bytes as text and their order.

use vstd::prelude::*;
use vstd::utf8::{
    decode_utf8_encode_utf8, encode_utf8, encode_utf8_decode_utf8, encode_utf8_valid_utf8,
    valid_utf8,
};

use crate::number::{all_digits, digit_value, digits_value};
use crate::text::{
    bytes_before, decimal, has_white_space, text_or_empty, trim_end, trim_start, trimmed,
};

verus! {

/// Whether a text is white space and nothing else.
pub open spec fn all_white(s: Seq<char>) -> bool {
    forall|i: int| 0 <= i < s.len() ==> has_white_space(#[trigger] s[i])
}

/// Whether a text neither starts nor ends with white space.
pub open spec fn bare(s: Seq<char>) -> bool {
    s.len() > 0 ==> !has_white_space(s[0]) && !has_white_space(s.last())
}

proof fn lemma_trim_start(white: Seq<char>, s: Seq<char>)
    requires
        all_white(white),
        s.len() > 0 ==> !has_white_space(s[0]),
    ensures
        trim_start(white + s) == s,
    decreases white.len(),
{
    if white.len() == 0 {
        assert(white + s =~= s);
    } else {
        let rest = white.drop_first();
        assert(has_white_space(white[0]));
        assert forall|i: int| 0 <= i < rest.len() implies has_white_space(#[trigger] rest[i]) by {
            assert(rest[i] == white[i + 1]);
        }
        lemma_trim_start(rest, s);
        assert((white + s).drop_first() =~= rest + s);
    }
}

proof fn lemma_trim_end(s: Seq<char>, white: Seq<char>)
    requires
        all_white(white),
        s.len() > 0 ==> !has_white_space(s.last()),
    ensures
        trim_end(s + white) == s,
    decreases white.len(),
{
    if white.len() == 0 {
        assert(s + white =~= s);
    } else {
        let rest = white.drop_last();
        assert(has_white_space(white[white.len() - 1]));
        assert forall|i: int| 0 <= i < rest.len() implies has_white_space(#[trigger] rest[i]) by {
            assert(rest[i] == white[i]);
        }
        lemma_trim_end(s, rest);
        assert((s + white).drop_last() =~= s + rest);
        assert((s + white).last() == white.last());
    }
}

/// Trimming takes off the white space at both ends, all of it and nothing else.
pub proof fn law_trimming_takes_off_white_space(
    before: Seq<char>,
    s: Seq<char>,
    behind: Seq<char>,
)
    requires
        all_white(before),
        all_white(behind),
        bare(s),
    ensures
        trimmed(before + s + behind) == s,
{
    if s.len() > 0 {
        assert(before + s + behind =~= before + (s + behind));
        lemma_trim_start(before, s + behind);
        lemma_trim_end(s, behind);
    } else {
        let all = before + behind;
        assert(before + s + behind =~= all);
        assert forall|i: int| 0 <= i < all.len() implies has_white_space(#[trigger] all[i]) by {
            if i < before.len() {
                assert(all[i] == before[i]);
            } else {
                assert(all[i] == behind[i - before.len()]);
            }
        }
        assert(all + s =~= all);
        lemma_trim_start(all, s);
        lemma_trim_end(s, Seq::empty());
        assert(s + Seq::empty() =~= s);
    }
}

/// Every text is a trimmed text with white space around it: what stands before
/// and behind what trimming leaves.
pub proof fn law_text_is_trimmed_text_in_white_space(s: Seq<char>) -> (around: (
    Seq<char>,
    Seq<char>,
))
    ensures
        all_white(around.0),
        all_white(around.1),
        bare(trimmed(s)),
        around.0 + trimmed(s) + around.1 == s,
    decreases s.len(),
{
    if s.len() > 0 && has_white_space(s[0]) {
        let rest = s.drop_first();
        let (a, b) = law_text_is_trimmed_text_in_white_space(rest);
        let before = seq![s[0]] + a;
        assert(before + trimmed(rest) + b =~= s) by {
            assert(a + trimmed(rest) + b == rest);
            assert(before + trimmed(rest) + b =~= seq![s[0]] + (a + trimmed(rest) + b));
        }
        law_trimming_takes_off_white_space(before, trimmed(rest), b);
        (before, b)
    } else if s.len() > 0 && has_white_space(s.last()) {
        let rest = s.drop_last();
        let (a, b) = law_text_is_trimmed_text_in_white_space(rest);
        let behind = b.push(s.last());
        assert(a + trimmed(rest) + behind =~= s) by {
            assert(a + trimmed(rest) + b == rest);
            assert(a + trimmed(rest) + behind =~= (a + trimmed(rest) + b).push(s.last()));
        }
        law_trimming_takes_off_white_space(a, trimmed(rest), behind);
        (a, behind)
    } else {
        let none = Seq::<char>::empty();
        assert(none + s + none =~= s);
        law_trimming_takes_off_white_space(none, s, none);
        (none, none)
    }
}

/// A decimal numeral as characters.
pub open spec fn numeral(n: nat) -> Seq<char> {
    Seq::new(decimal(n).len(), |i: int| decimal(n)[i] as char)
}

proof fn lemma_numeral(n: nat)
    ensures
        numeral(n).len() > 0,
        all_digits(numeral(n)),
        digits_value(numeral(n)) == n,
        n > 0 ==> numeral(n)[0] != '0',
        forall|i: int| 0 <= i < decimal(n).len() ==> 48 <= #[trigger] decimal(n)[i] <= 57,
    decreases n,
{
    reveal_with_fuel(digits_value, 2);
    let s = numeral(n);
    if n < 10 {
        assert(s.len() == 1);
        assert(s.drop_last().len() == 0);
        assert(s[0] as u32 == 48 + n);
    } else {
        let head = numeral(n / 10);
        lemma_numeral(n / 10);
        assert(s.drop_last() =~= head);
        assert(s.last() as u32 == 48 + n % 10);
        assert(decimal(n)[decimal(n).len() - 1] == (48 + n % 10) as u8);
        assert forall|i: int| 0 <= i < decimal(n).len() implies 48 <= #[trigger] decimal(n)[i]
            <= 57 by {
            if i < decimal(n / 10).len() {
                assert(decimal(n)[i] == decimal(n / 10)[i]);
            }
        }
        assert forall|i: int| 0 <= i < s.len() implies '0' <= #[trigger] s[i] <= '9' by {
            assert(48 <= decimal(n)[i] <= 57);
        }
        assert(s[0] == head[0]);
    }
}

/// A number that is written in decimal is read back: the numeral has nothing but
/// digits, starts with no needless zero, and stands for the number.
pub proof fn law_numerals_are_read_back(n: nat)
    ensures
        numeral(n).len() > 0,
        all_digits(numeral(n)),
        n > 0 ==> numeral(n)[0] != '0',
        n == 0 ==> numeral(n).len() == 1,
        digits_value(numeral(n)) == n,
{
    lemma_numeral(n);
}

/// One more digit behind a numeral makes ten times as much and the digit.
pub proof fn law_digits_count_by_place(s: Seq<char>, c: char)
    requires
        '0' <= c <= '9',
    ensures
        digits_value(s.push(c)) == 10 * digits_value(s) + (c as u32 - '0' as u32),
        digits_value(seq![]) == 0,
{
    assert(s.push(c).drop_last() =~= s);
    assert(digit_value(c) == c as u32 - '0' as u32);
}

/// Of two texts of bytes the one comes first that has the smaller byte at the
/// first place where they differ, whatever stands behind that place.
pub proof fn law_first_difference_decides(
    common: Seq<u8>,
    x: u8,
    y: u8,
    a: Seq<u8>,
    b: Seq<u8>,
)
    requires
        x != y,
    ensures
        bytes_before(common + seq![x] + a, common + seq![y] + b) == (x < y),
    decreases common.len(),
{
    let s = common + seq![x] + a;
    let t = common + seq![y] + b;
    if common.len() > 0 {
        law_first_difference_decides(common.drop_first(), x, y, a, b);
        assert(s.drop_first() =~= common.drop_first() + seq![x] + a);
        assert(t.drop_first() =~= common.drop_first() + seq![y] + b);
    }
}

/// Of two texts of bytes of which one starts with the other, the shorter comes
/// first. No text comes before itself.
pub proof fn law_shorter_comes_first(s: Seq<u8>, rest: Seq<u8>)
    ensures
        bytes_before(s, s + rest) == (rest.len() > 0),
        !bytes_before(s + rest, s),
    decreases s.len(),
{
    if s.len() > 0 {
        law_shorter_comes_first(s.drop_first(), rest);
        assert((s + rest).drop_first() =~= s.drop_first() + rest);
    }
}

/// White space is what Unicode has as such: tab, line feed, vertical tab, form feed,
/// carriage return, space, next line, no-break space and the spaces and separators of
/// other scripts; no other character is.
pub proof fn law_white_space_characters(c: char)
    ensures
        has_white_space(c) <==> seq![
            '\t',
            '\n',
            '\u{b}',
            '\u{c}',
            '\r',
            ' ',
            '\u{85}',
            '\u{a0}',
            '\u{1680}',
            '\u{2000}',
            '\u{2001}',
            '\u{2002}',
            '\u{2003}',
            '\u{2004}',
            '\u{2005}',
            '\u{2006}',
            '\u{2007}',
            '\u{2008}',
            '\u{2009}',
            '\u{200a}',
            '\u{2028}',
            '\u{2029}',
            '\u{202f}',
            '\u{205f}',
            '\u{3000}',
        ].contains(c),
{
    let all = seq![
        '\t',
        '\n',
        '\u{b}',
        '\u{c}',
        '\r',
        ' ',
        '\u{85}',
        '\u{a0}',
        '\u{1680}',
        '\u{2000}',
        '\u{2001}',
        '\u{2002}',
        '\u{2003}',
        '\u{2004}',
        '\u{2005}',
        '\u{2006}',
        '\u{2007}',
        '\u{2008}',
        '\u{2009}',
        '\u{200a}',
        '\u{2028}',
        '\u{2029}',
        '\u{202f}',
        '\u{205f}',
        '\u{3000}',
    ];
    let n = c as u32;
    if 0x09 <= n <= 0x0d {
        assert(all[n - 0x09] == c);
    } else if 0x2000 <= n <= 0x200a {
        assert(all[n - 0x2000 + 9] == c);
    } else if n == 0x20 {
        assert(all[5] == c);
    } else if n == 0x85 {
        assert(all[6] == c);
    } else if n == 0xa0 {
        assert(all[7] == c);
    } else if n == 0x1680 {
        assert(all[8] == c);
    } else if n == 0x2028 {
        assert(all[20] == c);
    } else if n == 0x2029 {
        assert(all[21] == c);
    } else if n == 0x202f {
        assert(all[22] == c);
    } else if n == 0x205f {
        assert(all[23] == c);
    } else if n == 0x3000 {
        assert(all[24] == c);
    }
}

/// Bytes are read as the text that they encode, and as the empty text where they
/// encode none.
pub proof fn law_bytes_are_read_as_text(s: Seq<char>, bytes: Seq<u8>)
    ensures
        text_or_empty(encode_utf8(s)) == s,
        !valid_utf8(bytes) ==> text_or_empty(bytes).len() == 0,
        valid_utf8(bytes) ==> encode_utf8(text_or_empty(bytes)) == bytes,
{
    encode_utf8_valid_utf8(s);
    encode_utf8_decode_utf8(s);
    if valid_utf8(bytes) {
        decode_utf8_encode_utf8(bytes);
    }
}

} // verus!
