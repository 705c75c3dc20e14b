//! What holds of every path text.

use vstd::prelude::*;

use crate::grammar::{
    before_pipe, child, closing, compiled, component, components, filter_expr, main_section,
    only_attribute, sections, shape_of, steps_of, BuiltV, ComponentV,
};
use crate::number::all_digits;
use crate::path::{FilterV, IndexV, Modifier, ParseErrorV, ProgramV, StepV, TerminalShape};
use crate::semantics::filter_of;
use crate::wildcard::{
    escaped, has_wildcard, law_escaped_name_is_literal, matcher_of, unescaped, MatcherV,
};

verus! {

/// Whether a step can stand at its place: attributes, text and counts come
/// last, a projection has something to project, a descendant step selects
/// every match, and a filter knows whether it looks at nothing but an attribute.
pub open spec fn placed(step: StepV, last: bool) -> bool {
    match step {
        StepV::Attribute(_) => last,
        StepV::Text => last,
        StepV::Child { index, descendant, .. } => {
            &&& index is Count ==> last
            &&& index is Each && !descendant ==> !last
            &&& descendant ==> index is Each
            &&& filter_of(step) matches Some(filter) ==> knows_attribute(filter)
        },
    }
}

/// Whether a filter knows whether it looks at nothing but an attribute.
pub open spec fn knows_attribute(filter: FilterV) -> bool {
    filter.attr_only == only_attribute(filter.path)
}

/// Whether the filters among components know what they look at.
pub open spec fn all_know(comps: Seq<ComponentV>) -> bool {
    forall|k: int|
        0 <= k < comps.len() ==> match #[trigger] comps[k] {
            ComponentV::Filter { filter, .. } => knows_attribute(filter),
            _ => true,
        }
}

proof fn lemma_components_know(s: Seq<char>, i: int, current: Seq<char>)
    ensures
        components(s, i, current) matches Ok(comps) ==> all_know(comps),
    decreases s.len() - i,
{
    if 0 <= i < s.len() {
        let c = s[i];
        if c == '\\' {
            if i + 1 < s.len() {
                lemma_components_know(s, i + 2, current + seq!['\\', s[i + 1]]);
            } else {
                lemma_components_know(s, i + 1, current.push('\\'));
            }
        } else if c == '*' && current.len() == 0 && i + 1 < s.len() && s[i + 1] == '*' {
            lemma_components_know(s, i + 2, current);
        } else if c == '#' && i + 1 < s.len() && s[i + 1] == '(' {
            if let Some(close) = closing(s, i + 2, 1, None) {
                if i + 2 <= close < s.len() {
                    let f = filter_expr(s.subrange(i + 2, close));
                    lemma_components_know(s, close + 1, Seq::empty());
                    if close + 1 < s.len() {
                        lemma_components_know(s, close + 2, Seq::empty());
                    }
                }
            }
        } else if c == '.' {
            lemma_components_know(s, i + 1, Seq::empty());
        } else {
            lemma_components_know(s, i + 1, current.push(c));
        }
    }
}

/// Whether all steps of a path can stand at their places.
pub open spec fn well_placed(steps: Seq<StepV>) -> bool {
    forall|k: int| 0 <= k < steps.len() ==> placed(#[trigger] steps[k], k == steps.len() - 1)
}

proof fn lemma_steps_placed(comps: Seq<ComponentV>)
    requires
        all_know(comps),
    ensures
        steps_of(comps) matches Ok(built) ==> well_placed(built.steps) && (comps.len() > 0
            ==> built.steps.len() > 0),
    decreases comps.len(),
{
    if comps.len() > 0 {
        let one = comps.skip(1);
        assert(all_know(one)) by {
            assert forall|k: int| 0 <= k < one.len() implies match #[trigger] one[k] {
                ComponentV::Filter { filter, .. } => knows_attribute(filter),
                _ => true,
            } by {
                assert(one[k] == comps[k + 1]);
            }
        }
        lemma_steps_placed(one);
        if comps.len() > 1 {
            let two = comps.skip(2);
            assert(all_know(two)) by {
                assert forall|k: int| 0 <= k < two.len() implies match #[trigger] two[k] {
                    ComponentV::Filter { filter, .. } => knows_attribute(filter),
                    _ => true,
                } by {
                    assert(two[k] == comps[k + 2]);
                }
            }
            lemma_steps_placed(two);
        }
    }
}

/// Every path that compiles gives a program with at least one step, whose steps
/// can all stand at their places.
pub proof fn law_compiled_steps_are_well_placed(path: Seq<char>)
    ensures
        compiled(path) matches Ok(program) ==> program.steps.len() > 0 && well_placed(
            program.steps,
        ),
{
    if let Some(parts) = sections(path, 0, 0, 0, None) {
        let main = main_section(parts);
        lemma_components_know(main, 0, Seq::empty());
        if let Ok(comps) = components(main, 0, Seq::empty()) {
            lemma_steps_placed(comps);
        }
    }
}

/// The program of one bare name.
pub open spec fn named(name: MatcherV) -> ProgramV {
    ProgramV {
        steps: seq![child(name, IndexV::Auto)],
        modifiers: Seq::empty(),
        multi: false,
        terminal_shape: TerminalShape::Element,
    }
}

proof fn lemma_escaped_at(s: Seq<char>, i: int)
    ensures
        escaped(s).len() == 2 * s.len(),
        0 <= i < s.len() ==> escaped(s)[2 * i] == '\\' && escaped(s)[2 * i + 1] == s[i],
    decreases s.len(),
{
    if s.len() > 0 {
        lemma_escaped_at(s.skip(1), i - 1);
    }
}

proof fn lemma_escaped_sections(s: Seq<char>, k: int)
    requires
        0 <= k <= s.len(),
    ensures
        sections(escaped(s), 2 * k, 0, 0, None) == Some(seq![escaped(s)]),
    decreases s.len() - k,
{
    let e = escaped(s);
    lemma_escaped_at(s, k);
    if k < s.len() {
        lemma_escaped_sections(s, k + 1);
    } else {
        assert(e.subrange(0, e.len() as int) =~= e);
    }
}

proof fn lemma_escaped_components(s: Seq<char>, k: int)
    requires
        0 <= k <= s.len(),
        s.len() > 0,
    ensures
        components(escaped(s), 2 * k, escaped(s).take(2 * k)) == Ok::<
            Seq<ComponentV>,
            ParseErrorV,
        >(seq![ComponentV::Name(MatcherV::Exact(escaped(s)))]),
    decreases s.len() - k,
{
    let e = escaped(s);
    lemma_escaped_at(s, k);
    if k < s.len() {
        lemma_escaped_components(s, k + 1);
        assert(e.take(2 * k) + seq!['\\', e[2 * k + 1]] =~= e.take(2 * (k + 1)));
    } else {
        assert(e.take(2 * k) =~= e);
        lemma_escaped_at(s, 0);
        law_escaped_name_is_literal(s, s, s);
        reveal_strlit("#");
        reveal_strlit("#text");
        assert("#"@[0] == '#');
        assert("#text"@[0] == '#');
        assert(e[0] == '\\');
        assert(!all_digits(e));
        assert(component(e) == Ok::<ComponentV, ParseErrorV>(ComponentV::Name(MatcherV::Exact(e))));
    }
}

/// A backslash takes from any character what it means in a path: with one
/// before each of its characters, any name is a path to the elements of that
/// very name.
pub proof fn law_escaped_path_is_one_name(name: Seq<char>, full: Seq<char>, local: Seq<char>)
    requires
        name.len() > 0,
    ensures
        compiled(escaped(name)) == Ok::<ProgramV, ParseErrorV>(named(matcher_of(escaped(name)))),
        matcher_of(escaped(name)).matches(full, local) == (name == if name.contains(':') {
            full
        } else {
            local
        }),
{
    let e = escaped(name);
    law_escaped_name_is_literal(name, full, local);
    lemma_escaped_sections(name, 0);
    lemma_escaped_components(name, 0);
    assert(e.take(0) =~= Seq::empty());
    let one = seq![MatcherV::Exact(e)];
    assert(names(one) =~= seq![ComponentV::Name(MatcherV::Exact(e))]);
    lemma_compiled_names(e, one);
    assert(bare_steps(one) =~= named(MatcherV::Exact(e)).steps);
}

/// The components of bare names.
pub open spec fn names(matchers: Seq<MatcherV>) -> Seq<ComponentV> {
    Seq::new(matchers.len(), |k: int| ComponentV::Name(matchers[k]))
}

/// The steps of bare names.
pub open spec fn bare_steps(matchers: Seq<MatcherV>) -> Seq<StepV> {
    Seq::new(matchers.len(), |k: int| child(matchers[k], IndexV::Auto))
}

proof fn lemma_bare_steps(matchers: Seq<MatcherV>)
    ensures
        steps_of(names(matchers)) == Ok::<BuiltV, ParseErrorV>(
            BuiltV { steps: bare_steps(matchers), multi: false },
        ),
    decreases matchers.len(),
{
    if matchers.len() == 0 {
        assert(bare_steps(matchers) =~= Seq::empty());
    } else {
        lemma_bare_steps(matchers.skip(1));
        assert(names(matchers).skip(1) =~= names(matchers.skip(1)));
        assert(seq![child(matchers[0], IndexV::Auto)] + bare_steps(matchers.skip(1)) =~= bare_steps(
            matchers,
        ));
    }
}

proof fn lemma_compiled_names(path: Seq<char>, matchers: Seq<MatcherV>)
    requires
        matchers.len() > 0,
        sections(path, 0, 0, 0, None) == Some(seq![path]),
        components(path, 0, Seq::empty()) == Ok::<Seq<ComponentV>, ParseErrorV>(names(matchers)),
    ensures
        compiled(path) == Ok::<ProgramV, ParseErrorV>(
            ProgramV {
                steps: bare_steps(matchers),
                modifiers: Seq::empty(),
                multi: false,
                terminal_shape: TerminalShape::Element,
            },
        ),
{
    lemma_bare_steps(matchers);
    let parts = seq![path];
    assert(parts.skip(1) =~= Seq::empty());
    assert(parts[0] == path);
    let none = Seq::<Modifier>::empty();
    assert(none.len() != seq![Modifier::Count].len());
    assert(shape_of(bare_steps(matchers), none) == TerminalShape::Element);
}

/// Whether a character means nothing but itself in a path.
pub open spec fn ordinary(c: char) -> bool {
    c != '\\' && c != '.' && c != '|' && c != '(' && c != ')' && c != '"' && c != '\'' && c != '*'
        && c != '?' && c != '#' && c != '@'
}

/// Whether a name is made of ordinary characters and is no number.
pub open spec fn ordinary_name(name: Seq<char>) -> bool {
    &&& name.len() > 0
    &&& !all_digits(name)
    &&& forall|k: int| 0 <= k < name.len() ==> ordinary(#[trigger] name[k])
}

/// Names with dots between them.
pub open spec fn dotted(parts: Seq<Seq<char>>) -> Seq<char>
    decreases parts.len(),
{
    if parts.len() == 0 {
        Seq::empty()
    } else if parts.len() == 1 {
        parts[0]
    } else {
        parts[0] + seq!['.'] + dotted(parts.skip(1))
    }
}

/// Names as patterns.
pub open spec fn exact(parts: Seq<Seq<char>>) -> Seq<MatcherV> {
    Seq::new(parts.len(), |k: int| MatcherV::Exact(parts[k]))
}

proof fn lemma_ordinary_literal(s: Seq<char>)
    requires
        forall|k: int| 0 <= k < s.len() ==> ordinary(#[trigger] s[k]),
    ensures
        matcher_of(s) == MatcherV::Exact(s),
        !has_wildcard(s),
        unescaped(s) == s,
    decreases s.len(),
{
    if s.len() > 0 {
        let rest = s.skip(1);
        assert forall|k: int| 0 <= k < rest.len() implies ordinary(#[trigger] rest[k]) by {
            assert(rest[k] == s[k + 1]);
        }
        lemma_ordinary_literal(rest);
        assert(ordinary(s[0]));
        assert(seq![s[0]] + rest =~= s);
        assert(unescaped(s) =~= s);
    } else {
        assert(unescaped(s) =~= s);
    }
}

/// Whether a character is ordinary or a dot.
pub open spec fn ordinary_or_dot(c: char) -> bool {
    ordinary(c) || c == '.'
}

proof fn lemma_dotted(parts: Seq<Seq<char>>)
    requires
        forall|k: int| 0 <= k < parts.len() ==> ordinary_name(#[trigger] parts[k]),
    ensures
        forall|k: int| 0 <= k < dotted(parts).len() ==> ordinary_or_dot(#[trigger] dotted(parts)[k]),
    decreases parts.len(),
{
    if parts.len() > 0 {
        assert(ordinary_name(parts[0]));
        let rest = parts.skip(1);
        assert forall|k: int| 0 <= k < rest.len() implies ordinary_name(#[trigger] rest[k]) by {
            assert(rest[k] == parts[k + 1]);
        }
        lemma_dotted(rest);
        assert forall|k: int| 0 <= k < dotted(parts).len() implies ordinary_or_dot(
            #[trigger] dotted(parts)[k],
        ) by {
            if k < parts[0].len() {
                assert(dotted(parts)[k] == parts[0][k]);
            } else if k > parts[0].len() {
                assert(dotted(parts)[k] == dotted(rest)[k - parts[0].len() - 1]);
            }
        }
    }
}

proof fn lemma_one_section(s: Seq<char>, i: int)
    requires
        0 <= i <= s.len(),
        forall|k: int| 0 <= k < s.len() ==> ordinary_or_dot(#[trigger] s[k]),
    ensures
        sections(s, i, 0, 0, None) == Some(seq![s]),
    decreases s.len() - i,
{
    if i < s.len() {
        assert(ordinary_or_dot(s[i]));
        lemma_one_section(s, i + 1);
    } else {
        assert(s.subrange(0, s.len() as int) =~= s);
    }
}

/// The components from inside a name on: `k` of its characters have been read.
proof fn lemma_dotted_components(s: Seq<char>, i: int, parts: Seq<Seq<char>>, k: int)
    requires
        0 <= i <= s.len(),
        parts.len() > 0,
        forall|j: int| 0 <= j < parts.len() ==> ordinary_name(#[trigger] parts[j]),
        0 <= k <= parts[0].len(),
        s.skip(i) == dotted(parts).skip(k),
    ensures
        components(s, i, parts[0].take(k)) == Ok::<Seq<ComponentV>, ParseErrorV>(
            names(exact(parts)),
        ),
    decreases s.len() - i,
{
    let name = parts[0];
    let here = s.skip(i);
    let text = dotted(parts);
    assert(ordinary_name(name));
    assert(here.len() == s.len() - i);
    if k < name.len() {
        assert(here[0] == s[i]);
        assert(text[k] == name[k]);
        assert(text.skip(k)[0] == text[k]);
        assert(ordinary(name[k]));
        assert(name.take(k).push(name[k]) =~= name.take(k + 1));
        assert(s.skip(i + 1) =~= here.skip(1));
        assert(text.skip(k + 1) =~= text.skip(k).skip(1));
        lemma_dotted_components(s, i + 1, parts, k + 1);
    } else {
        assert(name.take(k) =~= name);
        lemma_ordinary_literal(name);
        lemma_named_component(name);
        if parts.len() == 1 {
            assert(text.skip(k).len() == 0);
            assert(names(exact(parts)) =~= seq![ComponentV::Name(MatcherV::Exact(name))]);
        } else {
            let rest = parts.skip(1);
            assert forall|j: int| 0 <= j < rest.len() implies ordinary_name(#[trigger] rest[j]) by {
                assert(rest[j] == parts[j + 1]);
            }
            assert(text.skip(k)[0] == text[k]);
            assert(text[k] == '.');
            assert(here[0] == s[i]);
            assert(s[i] == '.');
            assert(s.skip(i + 1) =~= here.skip(1));
            assert(text.skip(k).skip(1) =~= dotted(rest));
            assert(dotted(rest).skip(0) =~= dotted(rest));
            assert(rest[0].take(0) =~= Seq::empty());
            lemma_dotted_components(s, i + 1, rest, 0);
            assert(seq![ComponentV::Name(MatcherV::Exact(name))] + names(exact(rest)) =~= names(
                exact(parts),
            ));
        }
    }
}

proof fn lemma_named_component(name: Seq<char>)
    requires
        ordinary_name(name),
    ensures
        component(name) == Ok::<ComponentV, ParseErrorV>(ComponentV::Name(matcher_of(name))),
{
    reveal_strlit("#");
    reveal_strlit("#text");
    assert(ordinary(name[0]));
    assert("#"@[0] == '#');
    assert("#text"@[0] == '#');
}

/// A path of ordinary names with dots between them descends from child to
/// child, each by its bare name.
pub proof fn law_dotted_path_descends(parts: Seq<Seq<char>>)
    requires
        parts.len() > 0,
        forall|k: int| 0 <= k < parts.len() ==> ordinary_name(#[trigger] parts[k]),
    ensures
        compiled(dotted(parts)) == Ok::<ProgramV, ParseErrorV>(
            ProgramV {
                steps: bare_steps(exact(parts)),
                modifiers: Seq::empty(),
                multi: false,
                terminal_shape: TerminalShape::Element,
            },
        ),
{
    let path = dotted(parts);
    lemma_dotted(parts);
    lemma_one_section(path, 0);
    assert(path.skip(0) =~= path);
    assert(parts[0].take(0) =~= Seq::empty());
    lemma_dotted_components(path, 0, parts, 0);
    lemma_compiled_names(path, exact(parts));
}

/// Whether a character neither quotes, escapes, groups nor separates.
pub open spec fn plain(c: char) -> bool {
    c != '\\' && c != '|' && c != '(' && c != ')' && c != '"' && c != '\''
}

/// The sections of a text do not depend on what stands before it.
pub proof fn lemma_sections_shift(
    a: Seq<char>,
    r: Seq<char>,
    i: int,
    last: int,
    depth: nat,
    quote: Option<char>,
)
    requires
        0 <= i,
        0 <= last <= r.len(),
        last <= i,
    ensures
        sections(a + r, a.len() + i, a.len() + last, depth, quote) == sections(
            r,
            i,
            last,
            depth,
            quote,
        ),
    decreases r.len() - i,
{
    let s = a + r;
    let n = a.len() as int;
    if i >= r.len() {
        assert(s.subrange(n + last, s.len() as int) =~= r.subrange(last, r.len() as int));
    } else {
        assert(s[n + i] == r[i]);
        let c = r[i];
        if c == '\\' && i + 1 < r.len() {
            lemma_sections_shift(a, r, i + 2, last, depth, quote);
        } else if quote is Some {
            let after_quote = if quote == Some(c) {
                None
            } else {
                quote
            };
            lemma_sections_shift(a, r, i + 1, last, depth, after_quote);
        } else if c == '"' || c == '\'' {
            lemma_sections_shift(a, r, i + 1, last, depth, Some(c));
        } else if c == '(' {
            lemma_sections_shift(a, r, i + 1, last, depth + 1, quote);
        } else if c == ')' {
            if depth > 0 {
                lemma_sections_shift(a, r, i + 1, last, (depth - 1) as nat, quote);
            }
        } else if c == '|' && depth == 0 {
            lemma_sections_shift(a, r, i + 1, i + 1, 0, None);
            assert(s.subrange(n + last, n + i) =~= r.subrange(last, i));
        } else {
            lemma_sections_shift(a, r, i + 1, last, depth, quote);
        }
    }
}

/// What stands before the first pipe is the first section.
proof fn lemma_head_section(head: Seq<char>, rest: Seq<char>, i: int)
    requires
        forall|k: int| 0 <= k < head.len() ==> plain(#[trigger] head[k]),
        0 <= i <= head.len(),
    ensures
        sections(head + (seq!['|'] + rest), i, 0, 0, None) == match sections(
            rest,
            0,
            0,
            0,
            None,
        ) {
            Some(more) => Some(seq![head] + more),
            None => None,
        },
    decreases head.len() - i,
{
    let s = head + (seq!['|'] + rest);
    let n = head.len() as int;
    if i < n {
        assert(s[i] == head[i]);
        assert(plain(head[i]));
        lemma_head_section(head, rest, i + 1);
    } else {
        assert(s[n] == '|');
        let front = head + seq!['|'];
        assert(s =~= front + rest);
        lemma_sections_shift(front, rest, 0, 0, 0, None);
        assert(s.subrange(0, n) =~= head);
    }
}

/// White space before the pipe, as in `a.b | @count`, makes no difference.
pub proof fn law_white_space_around_pipe(one: Seq<char>, other: Seq<char>, rest: Seq<char>)
    requires
        forall|k: int| 0 <= k < one.len() ==> plain(#[trigger] one[k]),
        forall|k: int| 0 <= k < other.len() ==> plain(#[trigger] other[k]),
        before_pipe(one) == before_pipe(other),
    ensures
        compiled(one + (seq!['|'] + rest)) == compiled(other + (seq!['|'] + rest)),
{
    lemma_head_section(one, rest, 0);
    lemma_head_section(other, rest, 0);
    if let Some(more) = sections(rest, 0, 0, 0, None) {
        let a = seq![one] + more;
        let b = seq![other] + more;
        assert(a[0] == one);
        assert(b[0] == other);
        assert(a.skip(1) =~= more);
        assert(b.skip(1) =~= more);
        lemma_some_section(rest, 0, 0, 0, None);
    }
}

/// A text has at least one section.
proof fn lemma_some_section(s: Seq<char>, i: int, last: int, depth: nat, quote: Option<char>)
    ensures
        sections(s, i, last, depth, quote) matches Some(parts) ==> parts.len() > 0,
    decreases s.len() - i,
{
    if 0 <= i < s.len() {
        let c = s[i];
        let none = None::<char>;
        if i + 1 < s.len() {
            lemma_some_section(s, i + 2, last, depth, quote);
        }
        lemma_some_section(s, i + 1, last, depth, quote);
        lemma_some_section(s, i + 1, last, depth, none);
        lemma_some_section(s, i + 1, last, depth, Some(c));
        lemma_some_section(s, i + 1, last, depth + 1, quote);
        if depth > 0 {
            lemma_some_section(s, i + 1, last, (depth - 1) as nat, quote);
        }
    }
}

} // verus!
