//! What holds of every path that is written out: which steps its components make,
//! and which modifiers its sections.

use vstd::prelude::*;

use crate::grammar::{
    backslashes, before_pipe, child, compiled, is_selector, main_section, modifier_named,
    modifier_of, modifiers_of, sections, shape_of, steps_of, BuiltV, ComponentV,
};
use crate::grammar_laws::{
    all_plain, law_dots_separate_components, lemma_over_plain, lemma_over_words, write_all,
};
use crate::path::{FilterV, IndexV, Modifier, ParseErrorV, ProgramV, StepV};
use crate::path_laws::{dotted, lemma_sections_shift};
use crate::text::{has_white_space, trimmed};
use crate::text_laws::all_white;
use crate::wildcard::MatcherV;

verus! {

/// One segment of a path: a name, and what selects among its matches.
pub enum SegmentV {
    /// `name`
    Bare(MatcherV),
    /// `name.3`
    Nth(MatcherV, nat),
    /// `name.#`, with more behind it
    Each(MatcherV),
    /// `name.#(...)`
    First(MatcherV, FilterV),
    /// `name.#(...)#`
    All(MatcherV, FilterV),
    /// `**.name`
    Descend(MatcherV),
}

/// What a path ends with.
pub enum EndV {
    Nothing,
    /// `name.#`
    Count(MatcherV),
    /// `@name`
    Attribute(Seq<char>),
    /// `#text`
    Text,
}

/// The components of a segment.
pub open spec fn segment_components(segment: SegmentV) -> Seq<ComponentV> {
    match segment {
        SegmentV::Bare(name) => seq![ComponentV::Name(name)],
        SegmentV::Nth(name, n) => seq![ComponentV::Name(name), ComponentV::Index(n)],
        SegmentV::Each(name) => seq![ComponentV::Name(name), ComponentV::Hash],
        SegmentV::First(name, filter) => seq![
            ComponentV::Name(name),
            ComponentV::Filter { filter, all: false },
        ],
        SegmentV::All(name, filter) => seq![
            ComponentV::Name(name),
            ComponentV::Filter { filter, all: true },
        ],
        SegmentV::Descend(name) => seq![ComponentV::Descendant, ComponentV::Name(name)],
    }
}

/// The step of a segment.
pub open spec fn segment_step(segment: SegmentV) -> StepV {
    match segment {
        SegmentV::Bare(name) => child(name, IndexV::Auto),
        SegmentV::Nth(name, n) => child(name, IndexV::Nth(n)),
        SegmentV::Each(name) => child(name, IndexV::Each),
        SegmentV::First(name, filter) => child(name, IndexV::FilterFirst(filter)),
        SegmentV::All(name, filter) => child(name, IndexV::FilterAll(filter)),
        SegmentV::Descend(name) => StepV::Child { name, index: IndexV::Each, descendant: true },
    }
}

/// Whether a segment asks for several elements.
pub open spec fn asks_for_several(segment: SegmentV) -> bool {
    segment is Each || segment is All || segment is Descend
}

/// The components of the end of a path.
pub open spec fn end_components(end: EndV) -> Seq<ComponentV> {
    match end {
        EndV::Nothing => Seq::empty(),
        EndV::Count(name) => seq![ComponentV::Name(name), ComponentV::Hash],
        EndV::Attribute(name) => seq![ComponentV::Attribute(name)],
        EndV::Text => seq![ComponentV::TextLit],
    }
}

/// The steps of the end of a path.
pub open spec fn end_steps(end: EndV) -> Seq<StepV> {
    match end {
        EndV::Nothing => Seq::empty(),
        EndV::Count(name) => seq![child(name, IndexV::Count)],
        EndV::Attribute(name) => seq![StepV::Attribute(name)],
        EndV::Text => seq![StepV::Text],
    }
}

/// The components of segments and an end.
pub open spec fn path_components(segments: Seq<SegmentV>, end: EndV) -> Seq<ComponentV>
    decreases segments.len(),
{
    if segments.len() == 0 {
        end_components(end)
    } else {
        segment_components(segments[0]) + path_components(segments.skip(1), end)
    }
}

/// The steps of segments and an end.
pub open spec fn path_steps(segments: Seq<SegmentV>, end: EndV) -> Seq<StepV> {
    Seq::new(segments.len(), |k: int| segment_step(segments[k])) + end_steps(end)
}

/// Whether a path asks for several elements.
pub open spec fn several(segments: Seq<SegmentV>) -> bool {
    exists|k: int| 0 <= k < segments.len() && asks_for_several(#[trigger] segments[k])
}

/// Whether segments and an end can stand together: a projection has something
/// behind it.
pub open spec fn fitting(segments: Seq<SegmentV>, end: EndV) -> bool {
    segments.len() > 0 && segments.last() is Each ==> !(end is Nothing)
}

proof fn lemma_first_component(segments: Seq<SegmentV>, end: EndV)
    ensures
        segments.len() > 0 || !(end is Nothing) ==> path_components(segments, end).len() > 0,
        path_components(segments, end).len() > 0 ==> !is_selector(
            path_components(segments, end)[0],
        ),
{
}

/// Each segment makes one step, in turn, and so does the end of a path.
pub proof fn law_segments_make_steps(segments: Seq<SegmentV>, end: EndV)
    requires
        fitting(segments, end),
    ensures
        steps_of(path_components(segments, end)) == Ok::<BuiltV, ParseErrorV>(
            BuiltV { steps: path_steps(segments, end), multi: several(segments) },
        ),
    decreases segments.len(),
{
    let comps = path_components(segments, end);
    if segments.len() == 0 {
        assert(path_steps(segments, end) =~= end_steps(end));
        assert(!several(segments));
        assert(comps.skip(2) =~= Seq::empty() || !(end is Count));
        assert(steps_of(Seq::<ComponentV>::empty()) == Ok::<BuiltV, ParseErrorV>(
            BuiltV { steps: Seq::empty(), multi: false },
        ));
        if let EndV::Count(name) = end {
            assert(comps[1] == ComponentV::Hash);
            assert(seq![child(name, IndexV::Count)] + Seq::<StepV>::empty() =~= end_steps(end));
        }
    } else {
        let rest = segments.skip(1);
        let more = path_components(rest, end);
        let first = segments[0];
        let head = segment_components(first);
        if rest.len() > 0 {
            assert(rest.last() == segments.last());
        }
        law_segments_make_steps(rest, end);
        lemma_first_component(rest, end);
        assert(comps.skip(head.len() as int) =~= more);
        if more.len() > 0 {
            assert(comps[head.len() as int] == more[0]);
        }
        assert(seq![segment_step(first)] + path_steps(rest, end) =~= path_steps(segments, end));
        assert(several(segments) == (asks_for_several(first) || several(rest))) by {
            if several(segments) {
                let k = choose|k: int|
                    0 <= k < segments.len() && asks_for_several(#[trigger] segments[k]);
                if k > 0 {
                    assert(rest[k - 1] == segments[k]);
                }
            }
            if several(rest) {
                let k = choose|k: int| 0 <= k < rest.len() && asks_for_several(#[trigger] rest[k]);
                assert(segments[k + 1] == rest[k]);
            }
            if asks_for_several(first) {
                assert(segments[0] == first);
            }
        }
        assert(comps[0] == head[0]);
        if head.len() > 1 {
            assert(comps[1] == head[1]);
        }
    }
}

/// Whether a component can stand where it stands: attributes and text come last,
/// a selector stands behind a name that is not looked for at every depth, and such
/// a name behind `**`.
pub open spec fn in_place(comps: Seq<ComponentV>, k: int) -> bool {
    match comps[k] {
        ComponentV::Name(_) => true,
        ComponentV::Attribute(_) => k == comps.len() - 1,
        ComponentV::TextLit => k == comps.len() - 1,
        ComponentV::Descendant => k + 1 < comps.len() && comps[k + 1] is Name,
        _ => k > 0 && comps[k - 1] is Name && (k > 1 ==> !(comps[k - 2] is Descendant)),
    }
}

/// Whether all components can stand where they stand.
pub open spec fn all_in_place(comps: Seq<ComponentV>) -> bool {
    forall|k: int| 0 <= k < comps.len() ==> #[trigger] in_place(comps, k)
}

proof fn lemma_in_place_behind(comps: Seq<ComponentV>, n: int)
    requires
        0 < n <= 2,
        n <= comps.len(),
        forall|k: int| 0 <= k < n ==> #[trigger] in_place(comps, k),
        comps[0] is Name || comps[0] is Descendant,
        n == 2 ==> (is_selector(comps[1]) || comps[0] is Descendant && comps[1] is Name),
        n == 1 ==> comps[0] is Name,
        n < comps.len() && is_selector(comps[n]) ==> !in_place(comps, n),
    ensures
        all_in_place(comps) == all_in_place(comps.skip(n)),
{
    let rest = comps.skip(n);
    if all_in_place(comps) {
        assert forall|k: int| 0 <= k < rest.len() implies #[trigger] in_place(rest, k) by {
            assert(in_place(comps, k + n));
            assert(rest[k] == comps[k + n]);
            if k > 0 {
                assert(rest[k - 1] == comps[k + n - 1]);
            }
            if k > 1 {
                assert(rest[k - 2] == comps[k + n - 2]);
            }
            if k + 1 < rest.len() {
                assert(rest[k + 1] == comps[k + n + 1]);
            }
        }
    }
    if all_in_place(rest) {
        assert forall|k: int| 0 <= k < comps.len() implies #[trigger] in_place(comps, k) by {
            if k >= n {
                let m = k - n;
                assert(in_place(rest, m));
                assert(rest[m] == comps[k]);
                if m > 0 {
                    assert(rest[m - 1] == comps[k - 1]);
                }
                if m > 1 {
                    assert(rest[m - 2] == comps[k - 2]);
                } else if m == 1 && n == 2 {
                    assert(rest[0] == comps[n]);
                }
                if m + 1 < rest.len() {
                    assert(rest[m + 1] == comps[k + 1]);
                }
            }
        }
    }
}

/// Components make steps exactly where each of them can stand where it stands.
pub proof fn law_components_in_place_make_steps(comps: Seq<ComponentV>)
    ensures
        steps_of(comps) is Ok <==> all_in_place(comps),
    decreases comps.len(),
{
    if comps.len() > 0 {
        law_components_in_place_make_steps(comps.skip(1));
        if comps.len() > 1 {
            law_components_in_place_make_steps(comps.skip(2));
        }
        match comps[0] {
            ComponentV::Name(_) => {
                if comps.len() > 1 && is_selector(comps[1]) {
                    assert(in_place(comps, 0) && in_place(comps, 1));
                    lemma_in_place_behind(comps, 2);
                } else {
                    assert(in_place(comps, 0));
                    lemma_in_place_behind(comps, 1);
                }
            },
            ComponentV::Descendant => {
                if comps.len() > 1 && comps[1] is Name {
                    if comps.len() > 2 && is_selector(comps[2]) {
                        assert(!in_place(comps, 2));
                    } else {
                        assert(in_place(comps, 0) && in_place(comps, 1));
                        lemma_in_place_behind(comps, 2);
                    }
                } else {
                    assert(!in_place(comps, 0));
                }
            },
            ComponentV::Attribute(_) => {
                if comps.len() > 1 {
                    assert(!in_place(comps, 0));
                }
            },
            ComponentV::TextLit => {
                if comps.len() > 1 {
                    assert(!in_place(comps, 0));
                }
            },
            _ => {
                assert(!in_place(comps, 0));
            },
        }
    }
}

/// Behind any segments, what stands out of its place is named in the error.
pub proof fn law_misplaced_components_are_named(
    segments: Seq<SegmentV>,
    c: ComponentV,
    behind: Seq<ComponentV>,
)
    requires
        segments.len() > 0 ==> !(segments.last() is Bare),
    ensures
        ({
            let comps = path_components(segments, EndV::Nothing) + (seq![c] + behind);
            match c {
                ComponentV::Index(_) => segments.len() > 0 && segments.last() is Descend
                    || steps_of(comps) == Err::<BuiltV, ParseErrorV>(ParseErrorV::OrphanIndex),
                ComponentV::Hash => segments.len() > 0 && segments.last() is Descend || steps_of(
                    comps,
                ) == Err::<BuiltV, ParseErrorV>(ParseErrorV::OrphanHash),
                ComponentV::Filter { .. } => segments.len() > 0 && segments.last() is Descend
                    || steps_of(comps) == Err::<BuiltV, ParseErrorV>(ParseErrorV::OrphanHash),
                ComponentV::Attribute(_) => behind.len() > 0 ==> steps_of(comps) == Err::<
                    BuiltV,
                    ParseErrorV,
                >(ParseErrorV::AttributeNotTerminal),
                ComponentV::TextLit => behind.len() > 0 ==> steps_of(comps) == Err::<
                    BuiltV,
                    ParseErrorV,
                >(ParseErrorV::TextNotTerminal),
                ComponentV::Descendant => if behind.len() == 0 || !(behind[0] is Name) {
                    steps_of(comps) == Err::<BuiltV, ParseErrorV>(
                        ParseErrorV::DescendantWithoutName,
                    )
                } else {
                    behind.len() > 1 && is_selector(behind[1]) ==> steps_of(comps) == Err::<
                        BuiltV,
                        ParseErrorV,
                    >(ParseErrorV::DescendantWithIndex)
                },
                ComponentV::Name(_) => true,
            }
        }),
    decreases segments.len(),
{
    let tail = seq![c] + behind;
    let comps = path_components(segments, EndV::Nothing) + tail;
    assert(tail[0] == c);
    if behind.len() > 0 {
        assert(tail[1] == behind[0]);
    }
    if behind.len() > 1 {
        assert(tail[2] == behind[1]);
    }
    if segments.len() == 0 {
        assert(comps =~= tail);
    } else {
        let rest = segments.skip(1);
        let more = path_components(rest, EndV::Nothing);
        let head = segment_components(segments[0]);
        if rest.len() > 0 {
            assert(rest.last() == segments.last());
        }
        law_misplaced_components_are_named(rest, c, behind);
        lemma_first_component(rest, EndV::Nothing);
        assert(comps.skip(head.len() as int) =~= more + tail);
        assert(comps[0] == head[0]);
        if head.len() > 1 {
            assert(comps[1] == head[1]);
        }
        if more.len() > 0 {
            assert(comps[head.len() as int] == more[0]);
        } else {
            assert(comps[head.len() as int] == c);
        }
    }
}

/// The names of modifiers.
pub open spec fn calls(name: Seq<char>, modifier: Modifier) -> bool {
    match modifier {
        Modifier::Reverse => name == "reverse"@,
        Modifier::First => name == "first"@,
        Modifier::Last => name == "last"@,
        Modifier::Count => name == "count"@,
        Modifier::Sort => name == "sort"@,
        Modifier::SortNumeric => name == "sort_n"@ || name == "sortn"@,
        Modifier::Unique => name == "unique"@ || name == "uniq"@,
        Modifier::Flatten => name == "flatten"@,
        Modifier::Tostr => name == "tostr"@,
        Modifier::Sum => name == "sum"@,
        Modifier::Avg => name == "avg"@ || name == "mean"@,
        Modifier::Min => name == "min"@,
        Modifier::Max => name == "max"@,
    }
}

proof fn lemma_modifier_names()
    ensures
        "reverse"@.len() == 7 && "reverse"@[0] == 'r',
        "first"@.len() == 5 && "first"@[0] == 'f',
        "last"@.len() == 4 && "last"@[0] == 'l',
        "count"@.len() == 5 && "count"@[0] == 'c',
        "sort"@.len() == 4 && "sort"@[0] == 's',
        "sort_n"@.len() == 6 && "sort_n"@[0] == 's',
        "sortn"@.len() == 5 && "sortn"@[0] == 's',
        "unique"@.len() == 6 && "unique"@[0] == 'u',
        "uniq"@.len() == 4 && "uniq"@[0] == 'u',
        "flatten"@.len() == 7 && "flatten"@[0] == 'f',
        "tostr"@.len() == 5 && "tostr"@[0] == 't',
        "sum"@.len() == 3 && "sum"@[0] == 's',
        "avg"@.len() == 3 && "avg"@[0] == 'a',
        "mean"@.len() == 4 && "mean"@[0] == 'm',
        "min"@.len() == 3 && "min"@[0] == 'm' && "min"@[1] == 'i',
        "max"@.len() == 3 && "max"@[0] == 'm' && "max"@[1] == 'a',
{
    reveal_strlit("reverse");
    reveal_strlit("first");
    reveal_strlit("last");
    reveal_strlit("count");
    reveal_strlit("sort");
    reveal_strlit("sort_n");
    reveal_strlit("sortn");
    reveal_strlit("unique");
    reveal_strlit("uniq");
    reveal_strlit("flatten");
    reveal_strlit("tostr");
    reveal_strlit("sum");
    reveal_strlit("avg");
    reveal_strlit("mean");
    reveal_strlit("min");
    reveal_strlit("max");
}

/// A section that is `@` and a name, white space around it aside, is the modifier
/// of that name. What is no `@` and a name is no modifier, nor is a name that no
/// modifier has.
pub proof fn law_sections_name_modifiers(section: Seq<char>, name: Seq<char>, modifier: Modifier)
    ensures
        trimmed(section) == seq!['@'] + name && calls(name, modifier) ==> modifier_of(section)
            == Ok::<Modifier, ParseErrorV>(modifier),
        modifier_of(section) == Ok::<Modifier, ParseErrorV>(modifier) ==> trimmed(section).len() > 0
            && trimmed(section)[0] == '@' && calls(trimmed(section).skip(1), modifier),
        trimmed(section) == seq!['@'] + name && name.len() > 0 && (forall|m: Modifier|
            !#[trigger] calls(name, m)) ==> modifier_of(section) == Err::<Modifier, ParseErrorV>(
            ParseErrorV::UnknownModifier(name),
        ),
        trimmed(section).len() == 0 || trimmed(section)[0] != '@' || trimmed(section).len() == 1
            ==> modifier_of(section) == Err::<Modifier, ParseErrorV>(ParseErrorV::EmptyModifier),
{
    lemma_modifier_names();
    if trimmed(section) == seq!['@'] + name {
        assert(trimmed(section)[0] == '@');
        assert(trimmed(section).skip(1) =~= name);
        if let Some(m) = modifier_named(name) {
            assert(calls(name, m));
        }
    }
}

/// The modifiers of sections are those of the first and then those of the others;
/// the first section that is none decides the error.
pub proof fn law_modifiers_of_sections(a: Seq<Seq<char>>, b: Seq<Seq<char>>, section: Seq<char>)
    ensures
        modifiers_of(a + b) == match modifiers_of(a) {
            Err(error) => Err(error),
            Ok(head) => match modifiers_of(b) {
                Err(error) => Err(error),
                Ok(tail) => Ok(head + tail),
            },
        },
        modifiers_of(Seq::empty()) == Ok::<Seq<Modifier>, ParseErrorV>(Seq::empty()),
        modifiers_of(seq![section]) == match modifier_of(section) {
            Ok(modifier) => Ok(seq![modifier]),
            Err(error) => Err(error),
        },
    decreases b.len(),
{
    let one = seq![section];
    assert(one.drop_last() =~= Seq::empty());
    assert(modifiers_of(one.drop_last()) == Ok::<Seq<Modifier>, ParseErrorV>(Seq::empty()));
    if let Ok(modifier) = modifier_of(section) {
        assert(Seq::<Modifier>::empty().push(modifier) =~= seq![modifier]);
    }
    if b.len() == 0 {
        assert(a + b =~= a);
        if let Ok(head) = modifiers_of(a) {
            assert(head + Seq::<Modifier>::empty() =~= head);
        }
    } else {
        law_modifiers_of_sections(a, b.drop_last(), section);
        assert((a + b).drop_last() =~= a + b.drop_last());
        assert((a + b).last() == b.last());
        if let Ok(head) = modifiers_of(a) {
            if let Ok(tail) = modifiers_of(b.drop_last()) {
                if let Ok(modifier) = modifier_of(b.last()) {
                    assert((head + tail).push(modifier) =~= head + tail.push(modifier));
                }
            }
        }
    }
}

/// Sections with a pipe before each.
pub open spec fn piped(parts: Seq<Seq<char>>) -> Seq<char>
    decreases parts.len(),
{
    if parts.len() == 0 {
        Seq::empty()
    } else {
        seq!['|'] + parts[0] + piped(parts.skip(1))
    }
}

proof fn lemma_piped(head: Seq<char>, parts: Seq<Seq<char>>)
    requires
        forall|k: int| 0 <= k < parts.len() ==> all_plain(#[trigger] parts[k]),
        sections(head + piped(parts), 0, 0, 0, None) == sections(
            head + piped(parts),
            head.len() as int,
            0,
            0,
            None,
        ),
    ensures
        sections(head + piped(parts), 0, 0, 0, None) == Some(seq![head] + parts),
    decreases parts.len(),
{
    let s = head + piped(parts);
    let n = head.len() as int;
    if parts.len() == 0 {
        assert(s =~= head);
        assert(s.subrange(0, n) =~= head);
        assert(seq![head] + parts =~= seq![head]);
    } else {
        let next = parts[0];
        let rest = parts.skip(1);
        assert forall|k: int| 0 <= k < rest.len() implies all_plain(#[trigger] rest[k]) by {
            assert(rest[k] == parts[k + 1]);
        }
        let t = next + piped(rest);
        let front = head + seq!['|'];
        assert(s =~= front + t);
        assert(s[n] == '|');
        assert(all_plain(next));
        assert forall|k: int| 0 <= k < next.len() implies crate::path_laws::plain(
            #[trigger] t[k],
        ) by {
            assert(t[k] == next[k]);
        }
        lemma_over_plain(t, 0, next.len() as int, 0, 0);
        lemma_piped(next, rest);
        lemma_sections_shift(front, t, 0, 0, 0, None);
        assert(s.subrange(0, n) =~= head);
        assert(seq![head] + (seq![next] + rest) =~= seq![head] + parts);
    }
}

/// A path that is written out, with modifiers behind pipes, makes the steps of its
/// segments and the modifiers of its sections.
pub proof fn law_written_path_compiles(
    words: Seq<Seq<char>>,
    segments: Seq<SegmentV>,
    end: EndV,
    parts: Seq<Seq<char>>,
    modifiers: Seq<Modifier>,
)
    requires
        words.len() > 0,
        fitting(segments, end),
        write_all(words, path_components(segments, end)),
        parts.len() > 0 ==> !has_white_space(dotted(words).last()),
        parts.len() == modifiers.len(),
        forall|k: int| 0 <= k < parts.len() ==> all_plain(#[trigger] parts[k]),
        forall|k: int|
            0 <= k < parts.len() ==> modifier_of(#[trigger] parts[k]) == Ok::<
                Modifier,
                ParseErrorV,
            >(modifiers[k]),
    ensures
        compiled(dotted(words) + piped(parts)) == Ok::<ProgramV, ParseErrorV>(
            ProgramV {
                steps: path_steps(segments, end),
                modifiers,
                multi: several(segments),
                terminal_shape: shape_of(path_steps(segments, end), modifiers),
            },
        ),
{
    let comps = path_components(segments, end);
    let head = dotted(words);
    let s = head + piped(parts);
    assert(s.subrange(0, head.len() as int) =~= head);
    lemma_over_words(s, 0, words, comps);
    lemma_piped(head, parts);
    let all = seq![head] + parts;
    assert(all[0] == head);
    assert(all.skip(1) =~= parts);
    law_dots_separate_components(words, comps);
    law_segments_make_steps(segments, end);
    assert(main_section(all) == head);
    lemma_all_modifiers(parts, modifiers);
}

proof fn lemma_all_modifiers(parts: Seq<Seq<char>>, modifiers: Seq<Modifier>)
    requires
        parts.len() == modifiers.len(),
        forall|k: int|
            0 <= k < parts.len() ==> modifier_of(#[trigger] parts[k]) == Ok::<
                Modifier,
                ParseErrorV,
            >(modifiers[k]),
    ensures
        modifiers_of(parts) == Ok::<Seq<Modifier>, ParseErrorV>(modifiers),
    decreases parts.len(),
{
    if parts.len() == 0 {
        assert(modifiers =~= Seq::empty());
    } else {
        let head = parts.drop_last();
        assert forall|k: int| 0 <= k < head.len() implies modifier_of(#[trigger] head[k]) == Ok::<
            Modifier,
            ParseErrorV,
        >(modifiers.drop_last()[k]) by {
            assert(head[k] == parts[k]);
        }
        lemma_all_modifiers(head, modifiers.drop_last());
        assert(parts.last() == parts[parts.len() - 1]);
        assert(modifiers.drop_last().push(modifiers.last()) =~= modifiers);
    }
}

/// How elements at the end of a path are captured. Where the only modifier counts
/// them, nothing of them is kept. Where several can be selected and modifiers
/// other than a count work on them, their text is kept. Otherwise, and at the end
/// of every path without modifiers, the elements themselves are.
pub proof fn law_shapes_of_captures(steps: Seq<StepV>, modifiers: Seq<Modifier>)
    requires
        steps.len() > 0,
    ensures
        modifiers.len() == 0 ==> shape_of(steps, modifiers) is Element,
        !(steps.last() is Child) ==> shape_of(steps, modifiers) is Element,
        steps.last() is Child && modifiers == seq![Modifier::Count] ==> shape_of(
            steps,
            modifiers,
        ) is Count,
        shape_of(steps, modifiers) is Count ==> steps.last() is Child && modifiers.len() == 1
            && modifiers[0] is Count,
        shape_of(steps, modifiers) is Text <==> {
            &&& modifiers.len() > 0
            &&& forall|k: int| 0 <= k < modifiers.len() ==> !((#[trigger] modifiers[k]) is Count)
            &&& match steps.last() {
                StepV::Child { index, .. } => !(index is Nth) && !(index is Count),
                _ => false,
            }
        },
{
    assert(seq![Modifier::Count].len() == 1);
    assert(seq![Modifier::Count][0] == Modifier::Count);
    if forall|k: int| 0 <= k < modifiers.len() ==> !((#[trigger] modifiers[k]) is Count) {
        assert(!modifiers.contains(Modifier::Count));
    } else {
        let k = choose|k: int|
            0 <= k < modifiers.len() && ((#[trigger] modifiers[k]) is Count);
        assert(modifiers.contains(Modifier::Count));
    }
}

/// White space between a path and the pipe behind it is no part of the path, but
/// white space that a backslash escapes is.
pub proof fn law_pipe_takes_off_white_space(path: Seq<char>, white: Seq<char>, c: char)
    requires
        path.len() > 0 ==> !has_white_space(path.last()) && path.last() != '\\',
        all_white(white),
    ensures
        before_pipe(path + white) == path,
        before_pipe(path + seq!['\\', c]) == path + seq!['\\', c],
        before_pipe(path + seq!['\\', c] + white) == path + seq!['\\', c],
    decreases white.len(),
{
    let escaped = path + seq!['\\', c];
    assert(escaped.drop_last() =~= path.push('\\'));
    assert(path.push('\\').drop_last() =~= path);
    assert(backslashes(path) == 0);
    assert(backslashes(path.push('\\')) == 1);
    assert(before_pipe(escaped) == escaped);
    if white.len() == 0 {
        assert(path + white =~= path);
        assert(escaped + white =~= escaped);
    } else {
        let w = white.last();
        let less = white.drop_last();
        assert(has_white_space(white[white.len() - 1]));
        law_pipe_takes_off_white_space(path, less, c);
        assert((path + white).drop_last() =~= path + less);
        assert((path + white).last() == w);
        lemma_no_backslash_behind_white(path, less);
        if c == '\\' && less.len() == 0 {
            assert((escaped + less) =~= escaped);
            assert(escaped.last() == '\\');
            assert(backslashes(escaped) == 2);
        } else if less.len() == 0 {
            assert((escaped + less) =~= escaped);
            assert(escaped.last() == c);
        } else {
            assert(has_white_space(less[less.len() - 1]));
            assert((escaped + less).last() == less.last());
        }
        assert((escaped + white).drop_last() =~= escaped + less);
        assert((escaped + white).last() == w);
        assert(backslashes(escaped + less) % 2 == 0);
    }
}

proof fn lemma_no_backslash_behind_white(path: Seq<char>, white: Seq<char>)
    requires
        path.len() > 0 ==> path.last() != '\\',
        all_white(white),
    ensures
        backslashes(path + white) == 0,
{
    let s = path + white;
    if white.len() > 0 {
        assert(has_white_space(white[white.len() - 1]));
        assert(s.last() == white[white.len() - 1]);
    } else {
        assert(s =~= path);
    }
}

} // verus!
