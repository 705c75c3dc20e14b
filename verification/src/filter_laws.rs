//! What holds of every filter expression that is written out: a path, an operator
//! and a value.

use vstd::prelude::*;

use crate::grammar::{closing, filter_expr, filter_value, operator, operator_at, sections};
use crate::grammar_laws::{law_dots_separate_components, write_all};
use crate::number::is_numeral;
use crate::path::{FilterOp, FilterV, ParseErrorV, StepV, ValueV};
use crate::path_laws::dotted;
use crate::step_laws::{
    fitting, law_segments_make_steps, path_components, path_steps, EndV, SegmentV,
};
use crate::text::{has_white_space, trimmed};
use crate::text_laws::{all_white, bare, law_trimming_takes_off_white_space};
use crate::wildcard::{lemma_no_escape, unescaped};

verus! {

/// Whether a character is one that operators are made of.
pub open spec fn of_operator(c: char) -> bool {
    c == '=' || c == '!' || c == '<' || c == '>' || c == '%'
}

/// Whether a text holds no operator, quote or backslash.
pub open spec fn no_operator(s: Seq<char>) -> bool {
    forall|k: int|
        0 <= k < s.len() ==> !of_operator(#[trigger] s[k]) && s[k] != '"' && s[k] != '\'' && s[k]
            != '\\'
}

/// The ways to write an operator.
pub open spec fn written_as(op: FilterOp, symbol: Seq<char>) -> bool {
    match op {
        FilterOp::Eq => symbol == seq!['=', '='] || symbol == seq!['='],
        FilterOp::Ne => symbol == seq!['!', '='],
        FilterOp::Lt => symbol == seq!['<'],
        FilterOp::Le => symbol == seq!['<', '='],
        FilterOp::Gt => symbol == seq!['>'],
        FilterOp::Ge => symbol == seq!['>', '='],
        FilterOp::GlobMatch => symbol == seq!['%'],
        FilterOp::GlobNotMatch => symbol == seq!['!', '%'],
    }
}

proof fn lemma_operator_at(s: Seq<char>, i: int, j: int)
    requires
        0 <= i <= j <= s.len(),
        no_operator(s.take(j)),
        j < s.len() ==> of_operator(s[j]),
    ensures
        operator_at(s, i, None) == if j < s.len() {
            Some(j)
        } else {
            None
        },
    decreases j - i,
{
    if i < j {
        assert(s.take(j)[i] == s[i]);
        lemma_operator_at(s, i + 1, j);
    }
}

/// An operator is read whole: `=` behind `=`, `!`, `<` or `>` belongs to it.
pub proof fn law_operators_are_read_whole(op: FilterOp, symbol: Seq<char>, rest: Seq<char>)
    requires
        written_as(op, symbol),
        symbol.len() == 1 && rest.len() > 0 ==> rest[0] != '=',
    ensures
        operator(symbol + rest) == Some((op, symbol.len() as int)),
{
    let s = symbol + rest;
    assert(s[0] == symbol[0]);
    if symbol.len() > 1 {
        assert(s[1] == symbol[1]);
    } else if rest.len() > 0 {
        assert(s[1] == rest[0]);
    }
}

/// A path, an operator and a value, with white space between them or not, make
/// the filter of that path, that operator and that value.
pub proof fn law_written_filter_is_read(
    words: Seq<Seq<char>>,
    segments: Seq<SegmentV>,
    end: EndV,
    op: FilterOp,
    symbol: Seq<char>,
    value: Seq<char>,
    before: Seq<char>,
    behind: Seq<char>,
)
    requires
        words.len() > 0,
        fitting(segments, end),
        write_all(words, path_components(segments, end)),
        no_operator(dotted(words)),
        bare(dotted(words)),
        dotted(words).len() > 0,
        all_white(before),
        all_white(behind),
        written_as(op, symbol),
        symbol.len() == 1 && value.len() > 0 ==> value[0] != '=',
    ensures
        filter_expr(before + dotted(words) + behind + (symbol + value)) == Ok::<
            FilterV,
            ParseErrorV,
        >(
            FilterV {
                path: path_steps(segments, end),
                op,
                value: filter_value(trimmed(value)),
                attr_only: match end {
                    EndV::Attribute(name) if segments.len() == 0 => Some(name),
                    _ => None,
                },
            },
        ),
{
    let path = dotted(words);
    let front = before + path + behind;
    let s = front + (symbol + value);
    let k = front.len() as int;
    assert forall|m: int| 0 <= m < front.len() implies !of_operator(#[trigger] front[m])
        && front[m] != '"' && front[m] != '\'' && front[m] != '\\' by {
        if m < before.len() {
            assert(front[m] == before[m]);
            assert(has_white_space(before[m]));
        } else if m < before.len() + path.len() {
            assert(front[m] == path[m - before.len()]);
        } else {
            assert(front[m] == behind[m - before.len() - path.len()]);
            assert(has_white_space(behind[m - before.len() - path.len()]));
        }
    }
    assert(s.take(k) =~= front);
    assert(s[k] == symbol[0]);
    lemma_operator_at(s, 0, k);
    assert(s.skip(k) =~= symbol + value);
    law_operators_are_read_whole(op, symbol, value);
    law_trimming_takes_off_white_space(before, path, behind);
    assert(s.skip(k + symbol.len()) =~= value);
    law_dots_separate_components(words, path_components(segments, end));
    law_segments_make_steps(segments, end);
    let steps = path_steps(segments, end);
    if segments.len() > 0 {
        if steps.len() == 1 {
            assert(steps[0] is Child);
        }
    } else {
        match end {
            EndV::Attribute(name) => {
                assert(steps =~= seq![StepV::Attribute(name)]);
            },
            _ => {
                if steps.len() == 1 {
                    assert(!(steps[0] is Attribute));
                }
            },
        }
    }
}

/// An expression without an operator is refused, and so is one without a path
/// before its operator.
pub proof fn law_filters_need_operator_and_path(
    s: Seq<char>,
    op: FilterOp,
    symbol: Seq<char>,
    value: Seq<char>,
    white: Seq<char>,
)
    requires
        no_operator(s),
        written_as(op, symbol),
        symbol.len() == 1 && value.len() > 0 ==> value[0] != '=',
        all_white(white),
    ensures
        filter_expr(s) == Err::<FilterV, ParseErrorV>(ParseErrorV::FilterMissingOp(s)),
        filter_expr(white + (symbol + value)) == Err::<FilterV, ParseErrorV>(
            ParseErrorV::EmptyPath,
        ),
{
    assert(s.take(s.len() as int) =~= s);
    lemma_operator_at(s, 0, s.len() as int);
    let e = white + (symbol + value);
    let k = white.len() as int;
    assert(e.take(k) =~= white);
    assert forall|m: int| 0 <= m < white.len() implies !of_operator(#[trigger] white[m])
        && white[m] != '"' && white[m] != '\'' && white[m] != '\\' by {
        assert(has_white_space(white[m]));
    }
    assert(e[k] == symbol[0]);
    lemma_operator_at(e, 0, k);
    assert(e.skip(k) =~= symbol + value);
    law_operators_are_read_whole(op, symbol, value);
    let none = Seq::<char>::empty();
    law_trimming_takes_off_white_space(white, none, none);
    assert(white + none + none =~= white);
}

/// An exclamation mark with neither `=` nor `%` behind it is no operator.
pub proof fn law_lone_exclamation_mark_is_no_operator(path: Seq<char>, rest: Seq<char>)
    requires
        no_operator(path),
        rest.len() > 0 ==> rest[0] != '=' && rest[0] != '%',
    ensures
        filter_expr(path + (seq!['!'] + rest)) == Err::<FilterV, ParseErrorV>(
            ParseErrorV::FilterMissingOp(seq!['!'] + rest),
        ),
{
    let tail = seq!['!'] + rest;
    let s = path + tail;
    let k = path.len() as int;
    assert(s.take(k) =~= path);
    assert(s[k] == '!');
    lemma_operator_at(s, 0, k);
    assert(s.skip(k) =~= tail);
    assert(tail[0] == '!');
    if rest.len() > 0 {
        assert(tail[1] == rest[0]);
    }
}

/// A value in quotes of either kind is the text between them, whatever it spells.
/// Without quotes `true` and `false` are truth values, a numeral is a number, and
/// everything else is a text.
pub proof fn law_values_of_filters(s: Seq<char>, text: Seq<char>)
    ensures
        filter_value(seq!['"'] + text + seq!['"']) == ValueV::Text(unescaped(text)),
        filter_value(seq!['\''] + text + seq!['\'']) == ValueV::Text(unescaped(text)),
        !text.contains('\\') ==> unescaped(text) == text,
        filter_value("true"@) == ValueV::Bool(true),
        filter_value("false"@) == ValueV::Bool(false),
        s.len() > 0 && s[0] != '"' && s[0] != '\'' && s != "true"@ && s != "false"@
            ==> filter_value(s) == if is_numeral(s) {
            ValueV::Number(s)
        } else {
            ValueV::Text(s)
        },
        s.len() > 0 && s.last() != '"' && s.last() != '\'' && s != "true"@ && s != "false"@
            ==> filter_value(s) == if is_numeral(s) {
            ValueV::Number(s)
        } else {
            ValueV::Text(s)
        },
        s.len() > 0 && s[0] != s.last() && s != "true"@ && s != "false"@ ==> filter_value(s)
            == if is_numeral(s) {
            ValueV::Number(s)
        } else {
            ValueV::Text(s)
        },
{
    reveal_strlit("true");
    reveal_strlit("false");
    assert("true"@[0] == 't');
    assert("false"@[0] == 'f');
    assert("true"@ != "false"@) by {
        assert("true"@.len() != "false"@.len());
    }
    let double = seq!['"'] + text + seq!['"'];
    let single = seq!['\''] + text + seq!['\''];
    assert(double[0] == '"' && double.last() == '"');
    assert(single[0] == '\'' && single.last() == '\'');
    assert(double.subrange(1, double.len() - 1) =~= text);
    assert(single.subrange(1, single.len() - 1) =~= text);
    if !text.contains('\\') {
        lemma_no_escape(text);
    }
}

/// How many levels of parentheses a text opens more than it closes.
pub open spec fn open_levels(s: Seq<char>) -> int
    decreases s.len(),
{
    if s.len() == 0 {
        0
    } else {
        open_levels(s.drop_last()) + if s.last() == '(' {
            1int
        } else if s.last() == ')' {
            -1
        } else {
            0
        }
    }
}

/// Whether no closing parenthesis comes before its opening one, and none is left
/// open.
pub open spec fn balanced(s: Seq<char>) -> bool {
    &&& open_levels(s) == 0
    &&& forall|k: int| 0 <= k <= s.len() ==> open_levels(#[trigger] s.take(k)) >= 0
}

proof fn lemma_open_levels(s: Seq<char>, i: int)
    requires
        0 <= i < s.len(),
    ensures
        open_levels(s.take(i + 1)) == open_levels(s.take(i)) + if s[i] == '(' {
            1int
        } else if s[i] == ')' {
            -1
        } else {
            0
        },
{
    assert(s.take(i + 1).drop_last() =~= s.take(i));
    assert(s.take(i + 1).last() == s[i]);
}

proof fn lemma_sections_balanced(s: Seq<char>, i: int, last: int, depth: nat)
    requires
        0 <= i <= s.len(),
        forall|k: int|
            0 <= k < s.len() ==> (#[trigger] s[k]) != '"' && s[k] != '\'' && s[k] != '\\',
        depth == open_levels(s.take(i)),
    ensures
        sections(s, i, last, depth, None) is Some <==> {
            &&& open_levels(s) == 0
            &&& forall|k: int| i <= k <= s.len() ==> open_levels(#[trigger] s.take(k)) >= 0
        },
    decreases s.len() - i,
{
    if i == s.len() {
        assert(s.take(i) =~= s);
        assert(s.take(s.len() as int) =~= s);
    } else {
        lemma_open_levels(s, i);
        let c = s[i];
        let next = open_levels(s.take(i + 1));
        if next < 0 {
            assert(c == ')' && depth == 0);
        } else {
            if c == '|' && depth == 0 {
                lemma_sections_balanced(s, i + 1, i + 1, 0);
            } else {
                lemma_sections_balanced(s, i + 1, last, next as nat);
            }
            assert(open_levels(s.take(i)) >= 0);
        }
    }
}

/// Where nothing is quoted or escaped, a path falls into sections exactly where
/// its parentheses match.
pub proof fn law_parentheses_match(s: Seq<char>)
    requires
        forall|k: int|
            0 <= k < s.len() ==> (#[trigger] s[k]) != '"' && s[k] != '\'' && s[k] != '\\',
    ensures
        sections(s, 0, 0, 0, None) is Some <==> balanced(s),
{
    assert(s.take(0) =~= Seq::empty());
    lemma_sections_balanced(s, 0, 0, 0);
}

proof fn lemma_closing(s: Seq<char>, i: int, j: int, depth: nat)
    requires
        0 <= i <= j <= s.len(),
        forall|k: int|
            0 <= k < s.len() ==> (#[trigger] s[k]) != '"' && s[k] != '\'' && s[k] != '\\',
        depth == 1 + open_levels(s.subrange(i, j)),
        depth >= 1,
        forall|k: int| i <= k <= j ==> open_levels(#[trigger] s.subrange(i, k)) >= 0,
    ensures
        match closing(s, j, depth, None) {
            Some(k) => {
                &&& j <= k < s.len()
                &&& open_levels(s.subrange(i, k + 1)) == -1
                &&& forall|m: int| i <= m <= k ==> open_levels(#[trigger] s.subrange(i, m)) >= 0
            },
            None => forall|m: int|
                i <= m <= s.len() ==> open_levels(#[trigger] s.subrange(i, m)) >= 0,
        },
    decreases s.len() - j,
{
    if j < s.len() {
        assert(s.subrange(i, j + 1).drop_last() =~= s.subrange(i, j));
        assert(s.subrange(i, j + 1).last() == s[j]);
        let c = s[j];
        if c == ')' && depth <= 1 {
        } else {
            let next = (1 + open_levels(s.subrange(i, j + 1))) as nat;
            assert forall|k: int| i <= k <= j + 1 implies open_levels(#[trigger] s.subrange(i, k))
                >= 0 by {
                if k == j + 1 {
                }
            }
            lemma_closing(s, i, j + 1, next);
        }
    }
}

/// Where nothing is quoted or escaped, a filter ends with the parenthesis that
/// matches the one before it, whatever parentheses stand in between; where none
/// matches, it does not end.
pub proof fn law_filters_end_with_their_parenthesis(s: Seq<char>, i: int)
    requires
        0 <= i <= s.len(),
        forall|k: int|
            0 <= k < s.len() ==> (#[trigger] s[k]) != '"' && s[k] != '\'' && s[k] != '\\',
    ensures
        match closing(s, i, 1, None) {
            Some(k) => {
                &&& i <= k < s.len()
                &&& s[k] == ')'
                &&& balanced(s.subrange(i, k))
            },
            None => forall|m: int|
                i <= m <= s.len() ==> open_levels(#[trigger] s.subrange(i, m)) >= 0,
        },
{
    assert(s.subrange(i, i) =~= Seq::empty());
    lemma_closing(s, i, i, 1);
    if let Some(k) = closing(s, i, 1, None) {
        let e = s.subrange(i, k);
        assert(s.subrange(i, k + 1).drop_last() =~= e);
        assert(s.subrange(i, k + 1).last() == s[k]);
        assert(open_levels(e) >= 0);
        assert forall|m: int| 0 <= m <= e.len() implies open_levels(#[trigger] e.take(m)) >= 0 by {
            assert(e.take(m) =~= s.subrange(i, i + m));
        }
    }
}

} // verus!
