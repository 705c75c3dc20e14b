//! What holds of every error in a path: where it points, and how it is told.

use vstd::prelude::*;
use vstd::utf8::encode_utf8;

use crate::grammar::{error_offset, kind_message, offset_of, path_message, unbalanced_at};
use crate::path::{in_quotes, ParseErrorV};
use crate::text::{first_offset, occurs_at};

verus! {

/// An offset is the first place where bytes stand in others, and there is one exactly
/// where they stand there at all.
pub proof fn law_offsets_are_first_places(hay: Seq<u8>, needle: Seq<u8>)
    ensures
        match offset_of(hay, needle) {
            Some(i) => {
                &&& 0 <= i <= hay.len() - needle.len()
                &&& hay.subrange(i, i + needle.len()) == needle
                &&& forall|j: int|
                    0 <= j < i && j + needle.len() <= hay.len() ==> #[trigger] hay.subrange(
                        j,
                        j + needle.len(),
                    ) != needle
            },
            None => forall|j: int|
                0 <= j && j + needle.len() <= hay.len() ==> #[trigger] hay.subrange(
                    j,
                    j + needle.len(),
                ) != needle,
        },
{
    match offset_of(hay, needle) {
        Some(i) => {
            assert(first_offset(hay, needle, i));
            assert forall|j: int|
                0 <= j < i && j + needle.len() <= hay.len() implies #[trigger] hay.subrange(
                j,
                j + needle.len(),
            ) != needle by {
                assert(!occurs_at(hay, needle, j));
            }
        },
        None => {
            assert forall|j: int|
                0 <= j && j + needle.len() <= hay.len() implies #[trigger] hay.subrange(
                j,
                j + needle.len(),
            ) != needle by {
                if occurs_at(hay, needle, j) {
                    lemma_first(hay, needle, j);
                }
            }
        },
    }
}

proof fn lemma_first(hay: Seq<u8>, needle: Seq<u8>, j: int)
    requires
        occurs_at(hay, needle, j),
    ensures
        exists|i: int| first_offset(hay, needle, i),
    decreases j,
{
    if first_offset(hay, needle, j) {
    } else {
        let k = choose|k: int| 0 <= k < j && occurs_at(hay, needle, k);
        lemma_first(hay, needle, k);
    }
}

/// What an error points at, in the words of the path.
pub open spec fn pointed_at(kind: ParseErrorV) -> Option<Seq<char>> {
    match kind {
        ParseErrorV::UnknownModifier(name) => Some(seq!['@'] + name),
        ParseErrorV::FilterMissingOp(text) => Some(text),
        ParseErrorV::FilterBadValue(text) => Some(text),
        ParseErrorV::BadIndex(text) => Some(text),
        ParseErrorV::AttributeNotTerminal => Some(seq!['@']),
        ParseErrorV::EmptyAttribute => Some(seq!['@']),
        ParseErrorV::TextNotTerminal => Some(seq!['#', 't', 'e', 'x', 't']),
        ParseErrorV::EmptyModifier => Some(seq!['|']),
        ParseErrorV::DescendantWithoutName => Some(seq!['*', '*']),
        ParseErrorV::DescendantWithIndex => Some(seq!['*', '*']),
        _ => None,
    }
}

/// An error points at the first place in the path where what it is about stands.
/// What is missing before a path's first name, or is missing altogether, is nowhere.
pub proof fn law_errors_point_at_what_is_wrong(kind: ParseErrorV, path: Seq<char>)
    requires
        !(kind is UnmatchedParen),
    ensures
        error_offset(kind, path) == match pointed_at(kind) {
            Some(text) => offset_of(encode_utf8(path), encode_utf8(text)),
            None => None,
        },
{
    reveal_strlit("@");
    reveal_strlit("#text");
    reveal_strlit("|");
    reveal_strlit("**");
    assert("@"@ =~= seq!['@']);
    assert("#text"@ =~= seq!['#', 't', 'e', 'x', 't']);
    assert("|"@ =~= seq!['|']);
    assert("**"@ =~= seq!['*', '*']);
}

/// How many levels of parentheses are open before the byte `k`.
pub open spec fn levels(bytes: Seq<u8>, k: int) -> int
    decreases k,
{
    if k <= 0 {
        0
    } else {
        levels(bytes, k - 1) + if bytes[k - 1] == '(' as u8 {
            1int
        } else if bytes[k - 1] == ')' as u8 {
            -1
        } else {
            0
        }
    }
}

/// Whether a parenthesis opens at the top level.
pub open spec fn opens_at_top(bytes: Seq<u8>, k: int) -> bool {
    0 <= k < bytes.len() && bytes[k] == '(' as u8 && levels(bytes, k) == 0
}

/// Whether a byte is the first parenthesis that closes what is not open.
pub open spec fn closes_nothing(bytes: Seq<u8>, k: int) -> bool {
    0 <= k < bytes.len() && levels(bytes, k + 1) < 0 && forall|j: int|
        0 <= j <= k ==> #[trigger] levels(bytes, j) >= 0
}

proof fn lemma_unbalanced(bytes: Seq<u8>, i: int, last_open: Option<int>)
    requires
        0 <= i <= bytes.len(),
        forall|k: int|
            0 <= k < bytes.len() ==> (#[trigger] bytes[k]) != 34 && bytes[k] != 39 && bytes[k]
                != 92,
        forall|j: int| 0 <= j <= i ==> #[trigger] levels(bytes, j) >= 0,
        match last_open {
            Some(m) => m < i && opens_at_top(bytes, m) && forall|j: int|
                m < j < i ==> !#[trigger] opens_at_top(bytes, j),
            None => forall|j: int| 0 <= j < i ==> !#[trigger] opens_at_top(bytes, j),
        },
    ensures
        ({
            let r = unbalanced_at(bytes, i, levels(bytes, i) as nat, None, last_open);
            &&& forall|k: int| #[trigger] closes_nothing(bytes, k) ==> r == Some(k)
            &&& (forall|j: int| 0 <= j <= bytes.len() ==> #[trigger] levels(bytes, j) >= 0) ==> match r {
                Some(m) => opens_at_top(bytes, m) && forall|j: int|
                    m < j ==> !#[trigger] opens_at_top(bytes, j),
                None => forall|j: int| !#[trigger] opens_at_top(bytes, j),
            }
        }),
    decreases bytes.len() - i,
{
    if i < bytes.len() {
        let depth = levels(bytes, i);
        let next = levels(bytes, i + 1);
        assert('(' as u8 == 40);
        assert(')' as u8 == 41);
        let open = if opens_at_top(bytes, i) {
            Some(i)
        } else {
            last_open
        };
        if next >= 0 {
            assert forall|j: int| 0 <= j <= i + 1 implies #[trigger] levels(bytes, j) >= 0 by {
                if j == i + 1 {
                }
            }
            lemma_unbalanced(bytes, i + 1, open);
        } else {
            assert(closes_nothing(bytes, i));
            assert forall|k: int| #[trigger] closes_nothing(bytes, k) implies k == i by {
                if k < i {
                    assert(levels(bytes, k + 1) >= 0);
                } else if k > i {
                    assert(levels(bytes, i + 1) >= 0);
                }
            }
        }
    } else {
        assert forall|k: int| #[trigger] closes_nothing(bytes, k) implies false by {
            assert(levels(bytes, k + 1) >= 0);
        }
    }
}

/// Where nothing is quoted or escaped, parentheses that do not match are pointed out
/// at the first one that closes what is not open. Without such a one the last that
/// opens at the top level is pointed out.
pub proof fn law_unmatched_parentheses_are_pointed_out(bytes: Seq<u8>)
    requires
        forall|k: int|
            0 <= k < bytes.len() ==> (#[trigger] bytes[k]) != '"' as u8 && bytes[k] != '\'' as u8
                && bytes[k] != '\\' as u8,
    ensures
        ({
            let r = unbalanced_at(bytes, 0, 0, None, None);
            &&& forall|k: int| #[trigger] closes_nothing(bytes, k) ==> r == Some(k)
            &&& (forall|j: int| 0 <= j <= bytes.len() ==> #[trigger] levels(bytes, j) >= 0) ==> match r {
                Some(m) => opens_at_top(bytes, m) && forall|j: int|
                    m < j ==> !#[trigger] opens_at_top(bytes, j),
                None => forall|j: int| !#[trigger] opens_at_top(bytes, j),
            }
        }),
{
    assert('"' as u8 == 34 && '\'' as u8 == 39 && '\\' as u8 == 92);
    lemma_unbalanced(bytes, 0, None);
}

/// What an error says of a path is what is wrong and the path in quotes. Where a
/// place is known, a caret stands below it: as far in as the place in the path,
/// behind what stands before the path on its line.
pub proof fn law_caret_stands_below_the_place(kind: ParseErrorV, path: Seq<char>)
    ensures
        ({
            let told = kind_message(kind) + "\n  in path: "@ + in_quotes(path);
            match error_offset(kind, path) {
                None => path_message(kind, path) == told,
                Some(offset) => {
                    let last = path_message(kind, path).skip(told.len() as int);
                    &&& path_message(kind, path).take(told.len() as int) == told
                    &&& offset >= 0 ==> last.len() == "\n  in path: "@.len() + 1 + offset + 1
                    &&& last[0] == '\n'
                    &&& last.last() == '^'
                    &&& forall|j: int| 0 < j < last.len() - 1 ==> #[trigger] last[j] == ' '
                }
            }
        }),
{
    reveal_strlit("\n");
    reveal_strlit("^");
    reveal_strlit("\n  in path: ");
    let told = kind_message(kind) + "\n  in path: "@ + in_quotes(path);
    let whole = path_message(kind, path);
    if let Some(offset) = error_offset(kind, path) {
        let n = told.len() as int;
        assert(whole.take(n) =~= told);
        let last = whole.skip(n);
        let gap = crate::grammar::spaces((12 + offset) as nat);
        assert(last =~= "\n"@ + gap + "^"@);
        assert forall|j: int| 0 < j < last.len() - 1 implies #[trigger] last[j] == ' ' by {
            assert(last[j] == gap[j - 1]);
        }
    }
}

} // verus!
