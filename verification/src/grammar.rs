//! The meaning of path texts: which program a path stands for, and what is
//! wrong with a path that stands for none.

use vstd::prelude::*;
use vstd::utf8::encode_utf8;

use crate::number::{all_digits, digits_value, is_numeral};
use crate::path::{
    FilterOp, FilterV, IndexV, Modifier, ParseErrorV, ProgramV, StepV, TerminalShape, ValueV,
};
use crate::text::{first_offset, has_white_space, lemma_trimmed_len, trimmed};
use crate::wildcard::{matcher_of, unescaped, MatcherV};

verus! {

/// A component of a path.
pub enum ComponentV {
    Name(MatcherV),
    Index(nat),
    /// A bare `#`.
    Hash,
    Attribute(Seq<char>),
    /// `#text`
    TextLit,
    Filter { filter: FilterV, all: bool },
    /// `**`, which applies to the name behind it.
    Descendant,
}

/// The sections of a path from the character `i` on, of which the first starts
/// at `last`: `|` separates them, but not inside parentheses or quotes, nor
/// behind a backslash. `None` where parentheses do not match.
pub open spec fn sections(
    s: Seq<char>,
    i: int,
    last: int,
    depth: nat,
    quote: Option<char>,
) -> Option<Seq<Seq<char>>>
    decreases s.len() - i,
{
    if i < 0 || i >= s.len() {
        if depth != 0 {
            None
        } else {
            Some(seq![s.subrange(last, s.len() as int)])
        }
    } else {
        let c = s[i];
        if c == '\\' && i + 1 < s.len() {
            sections(s, i + 2, last, depth, quote)
        } else if quote is Some {
            sections(
                s,
                i + 1,
                last,
                depth,
                if quote == Some(c) {
                    None
                } else {
                    quote
                },
            )
        } else if c == '"' || c == '\'' {
            sections(s, i + 1, last, depth, Some(c))
        } else if c == '(' {
            sections(s, i + 1, last, depth + 1, quote)
        } else if c == ')' {
            if depth == 0 {
                None
            } else {
                sections(s, i + 1, last, (depth - 1) as nat, quote)
            }
        } else if c == '|' && depth == 0 {
            match sections(s, i + 1, i + 1, 0, None) {
                Some(rest) => Some(seq![s.subrange(last, i)] + rest),
                None => None,
            }
        } else {
            sections(s, i + 1, last, depth, quote)
        }
    }
}

/// The modifier of a name.
pub open spec fn modifier_named(name: Seq<char>) -> Option<Modifier> {
    if name == "reverse"@ {
        Some(Modifier::Reverse)
    } else if name == "first"@ {
        Some(Modifier::First)
    } else if name == "last"@ {
        Some(Modifier::Last)
    } else if name == "count"@ {
        Some(Modifier::Count)
    } else if name == "sort"@ {
        Some(Modifier::Sort)
    } else if name == "sort_n"@ || name == "sortn"@ {
        Some(Modifier::SortNumeric)
    } else if name == "unique"@ || name == "uniq"@ {
        Some(Modifier::Unique)
    } else if name == "flatten"@ {
        Some(Modifier::Flatten)
    } else if name == "tostr"@ {
        Some(Modifier::Tostr)
    } else if name == "sum"@ {
        Some(Modifier::Sum)
    } else if name == "avg"@ || name == "mean"@ {
        Some(Modifier::Avg)
    } else if name == "min"@ {
        Some(Modifier::Min)
    } else if name == "max"@ {
        Some(Modifier::Max)
    } else {
        None
    }
}

/// The modifier that a section stands for: `@` and a name, with white space
/// around it or not.
pub open spec fn modifier_of(section: Seq<char>) -> Result<Modifier, ParseErrorV> {
    let text = trimmed(section);
    if text.len() == 0 || text[0] != '@' {
        Err(ParseErrorV::EmptyModifier)
    } else {
        let name = text.skip(1);
        match modifier_named(name) {
            Some(modifier) => Ok(modifier),
            None => if name.len() == 0 {
                Err(ParseErrorV::EmptyModifier)
            } else {
                Err(ParseErrorV::UnknownModifier(name))
            },
        }
    }
}

/// The modifiers that sections stand for.
pub open spec fn modifiers_of(sections: Seq<Seq<char>>) -> Result<Seq<Modifier>, ParseErrorV>
    decreases sections.len(),
{
    if sections.len() == 0 {
        Ok(Seq::empty())
    } else {
        match modifiers_of(sections.drop_last()) {
            Ok(head) => match modifier_of(sections.last()) {
                Ok(modifier) => Ok(head.push(modifier)),
                Err(error) => Err(error),
            },
            Err(error) => Err(error),
        }
    }
}

/// Where the parenthesis closes that is `depth` levels outside of the
/// character `i`.
pub open spec fn closing(s: Seq<char>, i: int, depth: nat, quote: Option<char>) -> Option<int>
    decreases s.len() - i,
{
    if i < 0 || i >= s.len() {
        None
    } else {
        let c = s[i];
        if c == '\\' && i + 1 < s.len() {
            closing(s, i + 2, depth, quote)
        } else if quote is Some {
            closing(
                s,
                i + 1,
                depth,
                if quote == Some(c) {
                    None
                } else {
                    quote
                },
            )
        } else if c == '"' || c == '\'' {
            closing(s, i + 1, depth, Some(c))
        } else if c == '(' {
            closing(s, i + 1, depth + 1, quote)
        } else if c == ')' {
            if depth <= 1 {
                Some(i)
            } else {
                closing(s, i + 1, (depth - 1) as nat, quote)
            }
        } else {
            closing(s, i + 1, depth, quote)
        }
    }
}

/// The component that a text without separators stands for.
pub open spec fn component(raw: Seq<char>) -> Result<ComponentV, ParseErrorV> {
    if raw == "#"@ {
        Ok(ComponentV::Hash)
    } else if raw == "#text"@ {
        Ok(ComponentV::TextLit)
    } else if raw.len() > 0 && raw[0] == '@' {
        if raw.len() == 1 {
            Err(ParseErrorV::EmptyAttribute)
        } else {
            Ok(ComponentV::Attribute(unescaped(raw.skip(1))))
        }
    } else if raw.len() > 0 && all_digits(raw) {
        if digits_value(raw) <= usize::MAX {
            Ok(ComponentV::Index(digits_value(raw)))
        } else {
            Err(ParseErrorV::BadIndex(raw))
        }
    } else {
        Ok(ComponentV::Name(matcher_of(raw)))
    }
}

/// The component that was read last, if there is one.
pub open spec fn pending(current: Seq<char>) -> Result<Seq<ComponentV>, ParseErrorV> {
    if current.len() == 0 {
        Ok(Seq::empty())
    } else {
        match component(current) {
            Ok(c) => Ok(seq![c]),
            Err(error) => Err(error),
        }
    }
}

/// Components and those behind them.
pub open spec fn followed(
    head: Seq<ComponentV>,
    rest: Result<Seq<ComponentV>, ParseErrorV>,
) -> Result<Seq<ComponentV>, ParseErrorV> {
    match rest {
        Ok(tail) => Ok(head + tail),
        Err(error) => Err(error),
    }
}

/// The components of a path from the character `i` on, where the component
/// that is being read has the characters `current` so far.
pub open spec fn components(s: Seq<char>, i: int, current: Seq<char>) -> Result<
    Seq<ComponentV>,
    ParseErrorV,
>
    decreases s.len(), s.len() - i,
{
    if i < 0 || i >= s.len() {
        pending(current)
    } else {
        let c = s[i];
        if c == '\\' {
            if i + 1 < s.len() {
                components(s, i + 2, current + seq!['\\', s[i + 1]])
            } else {
                components(s, i + 1, current.push('\\'))
            }
        } else if c == '*' && current.len() == 0 && i + 1 < s.len() && s[i + 1] == '*' {
            followed(seq![ComponentV::Descendant], components(s, i + 2, current))
        } else if c == '#' && i + 1 < s.len() && s[i + 1] == '(' {
            match pending(current) {
                Err(error) => Err(error),
                Ok(head) => match closing(s, i + 2, 1, None) {
                    None => Err(ParseErrorV::UnmatchedParen),
                    Some(close) => if i + 2 <= close < s.len() {
                        let all = close + 1 < s.len() && s[close + 1] == '#';
                        let next = if all {
                            close + 2
                        } else {
                            close + 1
                        };
                        match filter_expr(s.subrange(i + 2, close)) {
                            Err(error) => Err(error),
                            Ok(filter) => followed(
                                head.push(ComponentV::Filter { filter, all }),
                                components(s, next, Seq::empty()),
                            ),
                        }
                    } else {
                        Err(ParseErrorV::UnmatchedParen)
                    },
                },
            }
        } else if c == '.' {
            match pending(current) {
                Err(error) => Err(error),
                Ok(head) => followed(head, components(s, i + 1, Seq::empty())),
            }
        } else {
            components(s, i + 1, current.push(c))
        }
    }
}

/// Where the operator of a filter expression stands, from the character `i`
/// on: not inside quotes nor behind a backslash.
pub open spec fn operator_at(s: Seq<char>, i: int, quote: Option<char>) -> Option<int>
    decreases s.len() - i,
{
    if i < 0 || i >= s.len() {
        None
    } else {
        let c = s[i];
        if c == '\\' && i + 1 < s.len() {
            operator_at(s, i + 2, quote)
        } else if quote is Some {
            operator_at(
                s,
                i + 1,
                if quote == Some(c) {
                    None
                } else {
                    quote
                },
            )
        } else if c == '"' || c == '\'' {
            operator_at(s, i + 1, Some(c))
        } else if c == '=' || c == '!' || c == '<' || c == '>' || c == '%' {
            Some(i)
        } else {
            operator_at(s, i + 1, quote)
        }
    }
}

/// The operator at the start of a text, and its length.
pub open spec fn operator(s: Seq<char>) -> Option<(FilterOp, int)> {
    let second = if s.len() > 1 {
        Some(s[1])
    } else {
        None
    };
    if s.len() == 0 {
        None
    } else if s[0] == '=' && second == Some('=') {
        Some((FilterOp::Eq, 2))
    } else if s[0] == '!' && second == Some('=') {
        Some((FilterOp::Ne, 2))
    } else if s[0] == '<' && second == Some('=') {
        Some((FilterOp::Le, 2))
    } else if s[0] == '>' && second == Some('=') {
        Some((FilterOp::Ge, 2))
    } else if s[0] == '!' && second == Some('%') {
        Some((FilterOp::GlobNotMatch, 2))
    } else if s[0] == '=' {
        Some((FilterOp::Eq, 1))
    } else if s[0] == '<' {
        Some((FilterOp::Lt, 1))
    } else if s[0] == '>' {
        Some((FilterOp::Gt, 1))
    } else if s[0] == '%' {
        Some((FilterOp::GlobMatch, 1))
    } else {
        None
    }
}

/// Whether a text stands between two quotes of a kind.
pub open spec fn quoted_by(s: Seq<char>, quote: char) -> bool {
    s.len() >= 2 && s[0] == quote && s.last() == quote
}

/// The value that a text in a filter stands for.
pub open spec fn filter_value(s: Seq<char>) -> ValueV {
    if quoted_by(s, '"') || quoted_by(s, '\'') {
        ValueV::Text(unescaped(s.subrange(1, s.len() - 1)))
    } else if s == "true"@ {
        ValueV::Bool(true)
    } else if s == "false"@ {
        ValueV::Bool(false)
    } else if is_numeral(s) {
        ValueV::Number(s)
    } else {
        ValueV::Text(s)
    }
}

/// The name of the attribute that a path of one attribute step looks for.
pub open spec fn only_attribute(steps: Seq<StepV>) -> Option<Seq<char>> {
    if steps.len() == 1 {
        match steps[0] {
            StepV::Attribute(name) => Some(name),
            _ => None,
        }
    } else {
        None
    }
}

/// The filter that an expression stands for: a path, an operator and a value.
pub open spec fn filter_expr(s: Seq<char>) -> Result<FilterV, ParseErrorV>
    decreases s.len(), s.len() + 1,
{
    match operator_at(s, 0, None) {
        None => Err(ParseErrorV::FilterMissingOp(s)),
        Some(k) => match operator(s.skip(k)) {
            None => Err(ParseErrorV::FilterMissingOp(s.skip(k))),
            Some((op, width)) => {
                let path = trimmed(s.take(k));
                proof {
                    lemma_trimmed_len(s.take(k));
                }
                if !(0 <= k < s.len()) || path.len() == 0 {
                    Err(ParseErrorV::EmptyPath)
                } else {
                    match components(path, 0, Seq::empty()) {
                        Err(error) => Err(error),
                        Ok(comps) => match steps_of(comps) {
                            Err(error) => Err(error),
                            Ok(built) => Ok(
                                FilterV {
                                    path: built.steps,
                                    op,
                                    value: filter_value(trimmed(s.skip(k + width))),
                                    attr_only: only_attribute(built.steps),
                                },
                            ),
                        },
                    }
                }
            },
        },
    }
}

/// Steps, and whether one of them selects several elements explicitly.
pub struct BuiltV {
    pub steps: Seq<StepV>,
    pub multi: bool,
}

/// A step and those behind it.
pub open spec fn stepped(
    step: StepV,
    multi: bool,
    rest: Result<BuiltV, ParseErrorV>,
) -> Result<BuiltV, ParseErrorV> {
    match rest {
        Ok(built) => Ok(
            BuiltV { steps: seq![step] + built.steps, multi: multi || built.multi },
        ),
        Err(error) => Err(error),
    }
}

/// A child step.
pub open spec fn child(name: MatcherV, index: IndexV) -> StepV {
    StepV::Child { name, index, descendant: false }
}

/// The steps that components stand for. A name takes the selector behind it;
/// a selector does not stand alone; attributes and text come last.
pub open spec fn steps_of(comps: Seq<ComponentV>) -> Result<BuiltV, ParseErrorV>
    decreases comps.len(),
{
    if comps.len() == 0 {
        Ok(BuiltV { steps: Seq::empty(), multi: false })
    } else {
        let second = if comps.len() > 1 {
            Some(comps[1])
        } else {
            None
        };
        match comps[0] {
            ComponentV::Name(name) => match second {
                Some(ComponentV::Index(n)) => stepped(
                    child(name, IndexV::Nth(n)),
                    false,
                    steps_of(comps.skip(2)),
                ),
                Some(ComponentV::Hash) => if comps.len() > 2 {
                    stepped(child(name, IndexV::Each), true, steps_of(comps.skip(2)))
                } else {
                    stepped(child(name, IndexV::Count), false, steps_of(comps.skip(2)))
                },
                Some(ComponentV::Filter { filter, all: true }) => stepped(
                    child(name, IndexV::FilterAll(filter)),
                    true,
                    steps_of(comps.skip(2)),
                ),
                Some(ComponentV::Filter { filter, all: false }) => stepped(
                    child(name, IndexV::FilterFirst(filter)),
                    false,
                    steps_of(comps.skip(2)),
                ),
                _ => stepped(child(name, IndexV::Auto), false, steps_of(comps.skip(1))),
            },
            ComponentV::Descendant => match second {
                Some(ComponentV::Name(name)) => if comps.len() > 2 && is_selector(comps[2]) {
                    Err(ParseErrorV::DescendantWithIndex)
                } else {
                    stepped(
                        StepV::Child { name, index: IndexV::Each, descendant: true },
                        true,
                        steps_of(comps.skip(2)),
                    )
                },
                _ => Err(ParseErrorV::DescendantWithoutName),
            },
            ComponentV::Attribute(name) => if comps.len() > 1 {
                Err(ParseErrorV::AttributeNotTerminal)
            } else {
                Ok(BuiltV { steps: seq![StepV::Attribute(name)], multi: false })
            },
            ComponentV::TextLit => if comps.len() > 1 {
                Err(ParseErrorV::TextNotTerminal)
            } else {
                Ok(BuiltV { steps: seq![StepV::Text], multi: false })
            },
            ComponentV::Index(_) => Err(ParseErrorV::OrphanIndex),
            ComponentV::Hash => Err(ParseErrorV::OrphanHash),
            ComponentV::Filter { .. } => Err(ParseErrorV::OrphanHash),
        }
    }
}

/// Whether a component selects among the matches of a name.
pub open spec fn is_selector(c: ComponentV) -> bool {
    c is Index || c is Hash || c is Filter
}

/// How elements at the end of a path are captured: not at all where they are
/// only counted, and as text where modifiers that work on text apply to what
/// can be several elements.
pub open spec fn shape_of(steps: Seq<StepV>, modifiers: Seq<Modifier>) -> TerminalShape {
    if steps.len() == 0 {
        TerminalShape::Element
    } else {
        match steps.last() {
            StepV::Child { index, .. } => if modifiers =~= seq![Modifier::Count] {
                TerminalShape::Count
            } else if modifiers.len() > 0 && !modifiers.contains(Modifier::Count) && !(index is Nth)
                && !(index is Count) {
                TerminalShape::Text
            } else {
                TerminalShape::Element
            },
            _ => TerminalShape::Element,
        }
    }
}

/// How many backslashes a text ends with.
pub open spec fn backslashes(s: Seq<char>) -> nat
    decreases s.len(),
{
    if s.len() > 0 && s.last() == '\\' {
        1 + backslashes(s.drop_last())
    } else {
        0
    }
}

/// A text without the white space that it ends with; white space that a backslash
/// escapes stays.
pub open spec fn before_pipe(s: Seq<char>) -> Seq<char>
    decreases s.len(),
{
    if s.len() > 0 && has_white_space(s.last()) && backslashes(s.drop_last()) % 2 == 0 {
        before_pipe(s.drop_last())
    } else {
        s
    }
}

/// The steps of a path, as text: what stands before the first pipe, without the
/// white space next to that pipe.
pub open spec fn main_section(parts: Seq<Seq<char>>) -> Seq<char> {
    if parts.len() > 1 {
        before_pipe(parts[0])
    } else {
        parts[0]
    }
}

/// The program that a path stands for.
pub open spec fn compiled(path: Seq<char>) -> Result<ProgramV, ParseErrorV> {
    match sections(path, 0, 0, 0, None) {
        None => Err(ParseErrorV::UnmatchedParen),
        Some(parts) => match components(main_section(parts), 0, Seq::empty()) {
            Err(error) => Err(error),
            Ok(comps) => if comps.len() == 0 {
                Err(ParseErrorV::EmptyPath)
            } else {
                match steps_of(comps) {
                    Err(error) => Err(error),
                    Ok(built) => match modifiers_of(parts.skip(1)) {
                        Err(error) => Err(error),
                        Ok(modifiers) => Ok(
                            ProgramV {
                                steps: built.steps,
                                modifiers,
                                multi: built.multi,
                                terminal_shape: shape_of(built.steps, modifiers),
                            },
                        ),
                    },
                }
            },
        },
    }
}

/// The offset at which bytes first stand in others.
pub open spec fn offset_of(hay: Seq<u8>, needle: Seq<u8>) -> Option<int> {
    if exists|i: int| first_offset(hay, needle, i) {
        Some(choose|i: int| first_offset(hay, needle, i))
    } else {
        None
    }
}

/// Where parentheses stop matching, from the byte `i` on: a closing one
/// without an opening one, or else the last one that opens at the top level.
pub open spec fn unbalanced_at(
    bytes: Seq<u8>,
    i: int,
    depth: nat,
    quote: Option<u8>,
    last_open: Option<int>,
) -> Option<int>
    decreases bytes.len() - i,
{
    if i < 0 || i >= bytes.len() {
        last_open
    } else {
        let c = bytes[i];
        if c == 92 && i + 1 < bytes.len() {
            unbalanced_at(bytes, i + 2, depth, quote, last_open)
        } else if quote is Some {
            unbalanced_at(
                bytes,
                i + 1,
                depth,
                if quote == Some(c) {
                    None
                } else {
                    quote
                },
                last_open,
            )
        } else if c == 34 || c == 39 {
            unbalanced_at(bytes, i + 1, depth, Some(c), last_open)
        } else if c == 40 {
            unbalanced_at(
                bytes,
                i + 1,
                depth + 1,
                quote,
                if depth == 0 {
                    Some(i)
                } else {
                    last_open
                },
            )
        } else if c == 41 {
            if depth == 0 {
                Some(i)
            } else {
                unbalanced_at(bytes, i + 1, (depth - 1) as nat, quote, last_open)
            }
        } else {
            unbalanced_at(bytes, i + 1, depth, quote, last_open)
        }
    }
}

/// The byte offset in a path at which an error can be pointed out.
pub open spec fn error_offset(kind: ParseErrorV, path: Seq<char>) -> Option<int> {
    let bytes = encode_utf8(path);
    match kind {
        ParseErrorV::UnmatchedParen => unbalanced_at(bytes, 0, 0, None, None),
        ParseErrorV::UnknownModifier(name) => offset_of(bytes, encode_utf8("@"@ + name)),
        ParseErrorV::FilterMissingOp(s) => offset_of(bytes, encode_utf8(s)),
        ParseErrorV::FilterBadValue(s) => offset_of(bytes, encode_utf8(s)),
        ParseErrorV::BadIndex(s) => offset_of(bytes, encode_utf8(s)),
        ParseErrorV::AttributeNotTerminal => offset_of(bytes, encode_utf8("@"@)),
        ParseErrorV::TextNotTerminal => offset_of(bytes, encode_utf8("#text"@)),
        ParseErrorV::EmptyAttribute => offset_of(bytes, encode_utf8("@"@)),
        ParseErrorV::EmptyModifier => offset_of(bytes, encode_utf8("|"@)),
        ParseErrorV::DescendantWithoutName => offset_of(bytes, encode_utf8("**"@)),
        ParseErrorV::DescendantWithIndex => offset_of(bytes, encode_utf8("**"@)),
        ParseErrorV::OrphanIndex => None,
        ParseErrorV::OrphanHash => None,
        ParseErrorV::EmptyPath => None,
    }
}

/// What a kind of error is called.
pub open spec fn kind_message(kind: ParseErrorV) -> Seq<char> {
    match kind {
        ParseErrorV::EmptyPath => "empty path"@,
        ParseErrorV::BadIndex(s) => "bad index: "@ + s,
        ParseErrorV::OrphanIndex => "index without preceding name"@,
        ParseErrorV::OrphanHash => "# without preceding name"@,
        ParseErrorV::AttributeNotTerminal => "@attr must be the last component"@,
        ParseErrorV::TextNotTerminal => "#text must be the last component"@,
        ParseErrorV::EmptyAttribute => "@ must be followed by an attribute name"@,
        ParseErrorV::UnmatchedParen => "unmatched ( in filter"@,
        ParseErrorV::FilterMissingOp(s) => "filter expression missing operator: "@ + s,
        ParseErrorV::FilterBadValue(s) => "filter value parse error: "@ + s,
        ParseErrorV::UnknownModifier(s) => "unknown modifier: @"@ + s,
        ParseErrorV::EmptyModifier => "modifier name is empty"@,
        ParseErrorV::DescendantWithoutName => "** must be followed by an element name"@,
        ParseErrorV::DescendantWithIndex =>
            "** does not accept an explicit selector (no index/#/filter)"@,
    }
}

/// `n` spaces.
pub open spec fn spaces(n: nat) -> Seq<char> {
    Seq::new(n, |i: int| ' ')
}

/// What an error says of a path: its kind, the path in quotes, and a caret
/// under the offending place where that is known.
pub open spec fn path_message(kind: ParseErrorV, path: Seq<char>) -> Seq<char> {
    let head = kind_message(kind) + "\n  in path: "@ + crate::path::in_quotes(path);
    match error_offset(kind, path) {
        Some(offset) => head + "\n"@ + spaces((12 + offset) as nat) + "^"@,
        None => head,
    }
}

} // verus!
