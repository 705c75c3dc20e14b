//! Evaluates compiled paths in one pass over a document, without building a
//! tree.

use vstd::prelude::*;
use vstd::utf8::decode_utf8;

pub use crate::item::{extract_element_text, item_text, Item};
pub use crate::many::{run_many, run_many_within};
use crate::item::{all_unknown, collected, found_view, items_view, read_text_in_scope, Sink};
use crate::laws::{law_well_formed_is_tidy, lemma_open_before};
use crate::modifiers::{all_modified, apply_modifiers, asks_unknown, law_modifiers_ask_unknown};
use crate::number::{no_readings, numeral_chars, texts_view, Readings, ReadingsV};
use crate::path::{
    lemma_steps_view, lemma_steps_view_skip, steps_view, ChildIndex, Filter, FilterOp, FilterValue,
    Modifier, Program, ProgramV, Step, StepV,
};
use crate::semantics::{
    at_any_depth, attr_test, attr_text, bool_text, child_test, child_text, compare_numbers, descend,
    empty_hit, filter_hit, filter_of, filter_test, first_tag, hit, hits, in_empty, nothing, once,
    scan, scope_end, simple_child, start_hit, tidy, within, FlowV, ItemV, SinkV,
};
use crate::text::{
    chars_of, copy_bytes, copy_text, decimal_bytes, push_text, same_bytes, same_text, string_of,
    text_or_empty, trim, utf8_or_empty, utf8_str,
};
use crate::wildcard::NameMatcher;
use crate::xml::{
    doc_at, doc_of, local_name_bytes, ordered, place_at, pos_at, EventAt, EventV, Scanner, Tag,
    XmlEvent,
};

verus! {

/// Why a query has no result.
#[derive(Debug)]
pub enum EngineError {
    /// A bare name matches several elements before further steps: the caller
    /// has to choose `.N` or `.#`.
    AmbiguousMatch { name: String },
    /// The query compares numbers, and the readings do not hold the numbers
    /// that these numerals stand for.
    NumbersNeeded { texts: Vec<String> },
    /// The query collapses these numerals into one number, and the readings do
    /// not hold the outcome.
    TotalNeeded { modifier: Modifier, texts: Vec<String> },
}

/// The content of an [`EngineError`].
pub enum ErrorV {
    Ambiguous(Seq<char>),
    NumbersNeeded(Seq<Seq<char>>),
    TotalNeeded(Modifier, Seq<Seq<char>>),
}

impl View for EngineError {
    type V = ErrorV;

    open spec fn view(&self) -> ErrorV {
        match self {
            EngineError::AmbiguousMatch { name } => ErrorV::Ambiguous(name@),
            EngineError::NumbersNeeded { texts } => ErrorV::NumbersNeeded(texts_view(texts@)),
            EngineError::TotalNeeded { modifier, texts } => ErrorV::TotalNeeded(
                *modifier,
                texts_view(texts@),
            ),
        }
    }
}

/// What an error says.
pub open spec fn error_message(error: ErrorV) -> Seq<char> {
    match error {
        ErrorV::Ambiguous(name) => "path is ambiguous: "@ + name
            + " matches multiple elements but the path continues; specify .N (single) or .# (each)"@,
        ErrorV::NumbersNeeded(_) => "the path compares numbers that are not known"@,
        ErrorV::TotalNeeded(_, _) => "the path collapses numbers that are not known"@,
    }
}

impl EngineError {
    /// The error in words.
    pub fn message(&self) -> (s: String)
        ensures
            s@ == error_message(self@),
    {
        match self {
            EngineError::AmbiguousMatch { name } => {
                let mut s = copy_text("path is ambiguous: ");
                push_text(&mut s, name.as_str());
                push_text(
                    &mut s,
                    " matches multiple elements but the path continues; specify .N (single) or .# (each)",
                );
                s
            },
            EngineError::NumbersNeeded { .. } => copy_text(
                "the path compares numbers that are not known",
            ),
            EngineError::TotalNeeded { .. } => copy_text(
                "the path collapses numbers that are not known",
            ),
        }
    }
}

/// Why a pass stops early.
pub enum Stop {
    /// The one element that a step selects in its scope has been found.
    Done,
    /// A bare name before further steps matches several elements.
    Ambiguous(String),
}

/// How a part of a pass ended.
pub open spec fn flow_of(r: Result<(), Stop>) -> FlowV {
    match r {
        Ok(()) => FlowV::Go,
        Err(Stop::Done) => FlowV::Done,
        Err(Stop::Ambiguous(name)) => FlowV::Ambiguous(name@),
    }
}

/// Reads to the end of the current scope, or of the document.
pub(crate) fn consume_to_end(scanner: &mut Scanner, scoped: bool)
    requires
        old(scanner).wf(),
        scoped ==> old(scanner).index() > 0,
    ensures
        final(scanner).wf(),
        final(scanner).doc() == old(scanner).doc(),
        old(scanner).index() <= final(scanner).index() <= old(scanner).events().len(),
        scoped ==> final(scanner).index() == scope_end(
            old(scanner).events(),
            old(scanner).index(),
            1,
        ),
        !scoped ==> final(scanner).index() == old(scanner).events().len(),
{
    let ghost events = scanner.events();
    let ghost start = scanner.index();
    let mut depth: usize = 1;
    proof {
        scanner.lemma_wf();
    }
    loop
        invariant
            scanner.wf(),
            scanner.doc() == old(scanner).doc(),
            events == scanner.events(),
            start == old(scanner).index(),
            start <= scanner.index() <= events.len() <= usize::MAX,
            scoped ==> 1 <= depth <= scanner.index() && scope_end(events, start, 1) == scope_end(
                events,
                scanner.index(),
                depth as nat,
            ),
        decreases events.len() - scanner.index(),
    {
        match scanner.next() {
            XmlEvent::Start(_) => {
                if scoped {
                    depth = depth + 1;
                }
            },
            XmlEvent::End(_) => {
                if scoped {
                    depth = depth - 1;
                    if depth == 0 {
                        return ;
                    }
                }
            },
            XmlEvent::Eof => {
                return ;
            },
            _ => {},
        }
    }
}

/// Compares two texts as numbers.
fn num_cmp(
    raw: &str,
    op: FilterOp,
    value: &str,
    known: &Readings,
    asked: &mut Vec<String>,
) -> (r: bool)
    ensures
        r == compare_numbers(raw@, op, value@, known@).0,
        texts_view(final(asked)@) == texts_view(old(asked)@) + compare_numbers(
            raw@,
            op,
            value@,
            known@,
        ).1,
        all_unknown(texts_view(old(asked)@), known@) ==> all_unknown(
            texts_view(final(asked)@),
            known@,
        ),
{
    let raw_chars = chars_of(raw);
    let value_chars = chars_of(value);
    let a = trim(raw_chars.as_slice());
    let b = trim(value_chars.as_slice());
    let ghost before = texts_view(asked@);
    assert(before + Seq::<Seq<char>>::empty() =~= before);
    if !numeral_chars(a.as_slice()) || !numeral_chars(b.as_slice()) {
        return false;
    }
    let left = string_of(a.as_slice());
    let right = string_of(b.as_slice());
    match (known.number(left.as_str()), known.number(right.as_str())) {
        (Some(x), Some(y)) => match op {
            FilterOp::Eq => x.equals(y),
            FilterOp::Lt => x.less(y),
            FilterOp::Le => x.less(y) || x.equals(y),
            FilterOp::Gt => y.less(x),
            FilterOp::Ge => y.less(x) || x.equals(y),
            _ => false,
        },
        (x, y) => {
            let ghost want = crate::semantics::unknown(a@, b@, known@);
            if x.is_none() {
                asked.push(left);
                assert(texts_view(asked@) =~= before.push(a@));
            }
            let ghost mid = texts_view(asked@);
            if y.is_none() {
                asked.push(right);
                assert(texts_view(asked@) =~= mid.push(b@));
            }
            assert(texts_view(asked@) =~= before + want);
            false
        },
    }
}

/// Compares a text with the value of a filter. Where it would have to know the
/// number that a numeral stands for, it adds the numeral to `asked`.
pub(crate) fn compare(
    raw: &str,
    op: FilterOp,
    value: &FilterValue,
    known: &Readings,
    asked: &mut Vec<String>,
) -> (r: bool)
    ensures
        r == crate::semantics::compare(raw@, op, value@, known@).0,
        texts_view(final(asked)@) == texts_view(old(asked)@) + crate::semantics::compare(
            raw@,
            op,
            value@,
            known@,
        ).1,
        all_unknown(texts_view(old(asked)@), known@) ==> all_unknown(
            texts_view(final(asked)@),
            known@,
        ),
    decreases
            (if op == FilterOp::Ne {
                1int
            } else {
                0
            }),
{
    let ghost before = texts_view(asked@);
    assert(before + Seq::<Seq<char>>::empty() =~= before);
    match op {
        FilterOp::Eq => match value {
            FilterValue::String(s) => same_text(raw, s.as_str()),
            FilterValue::Number(n) => num_cmp(raw, op, n.as_str(), known, asked),
            FilterValue::Bool(b) => {
                proof {
                    reveal_strlit("true");
                    reveal_strlit("false");
                    assert("true"@ =~= bool_text(true));
                    assert("false"@ =~= bool_text(false));
                }
                same_text(
                    raw,
                    if *b {
                        "true"
                    } else {
                        "false"
                    },
                )
            },
        },
        FilterOp::Ne => {
            let len = asked.len();
            let same = compare(raw, FilterOp::Eq, value, known, asked);
            assert(texts_view(asked@).len() == asked@.len());
            asked.len() == len && !same
        },
        FilterOp::GlobMatch => match value {
            FilterValue::String(pattern) => NameMatcher::parse(pattern.as_str()).matches(raw, raw),
            _ => false,
        },
        FilterOp::GlobNotMatch => match value {
            FilterValue::String(pattern) => !NameMatcher::parse(pattern.as_str()).matches(raw, raw),
            _ => false,
        },
        _ => match value {
            FilterValue::String(s) => num_cmp(raw, op, s.as_str(), known, asked),
            FilterValue::Number(n) => num_cmp(raw, op, n.as_str(), known, asked),
            FilterValue::Bool(_) => false,
        },
    }
}

/// Whether a name pattern matches an element.
pub(crate) fn matches_tag(name: &NameMatcher, tag: &Tag) -> (r: bool)
    ensures
        r == hits(name@, tag@),
{
    let full = tag.name();
    name.matches_bytes(full, local_name_bytes(full))
}

/// The value of an attribute as text.
pub(crate) fn read_attr_str(tag: &Tag, name: &str) -> (r: Option<String>)
    ensures
        match r {
            Some(s) => attr_text(tag@, name@) == Some(s@),
            None => attr_text(tag@, name@) is None,
        },
{
    match tag.attr(name) {
        Some(bytes) => match utf8_str(bytes.as_slice()) {
            Some(s) => Some(copy_text(s)),
            None => None,
        },
        None => None,
    }
}

/// The name of a filter's predicate path, where that is one bare child name.
pub(crate) fn simple_child_filter(filter: &Filter) -> (r: Option<&NameMatcher>)
    ensures
        match r {
            Some(name) => simple_child(filter@) == Some(name@),
            None => simple_child(filter@) is None,
        },
{
    proof {
        lemma_steps_view(filter.path@);
    }
    if filter.path.len() == 1 {
        assert(filter@.path[0] == filter.path@[0]@);
        if let Step::Child { name, index: ChildIndex::Auto, descendant: false } = &filter.path[0] {
            return Some(name);
        }
    }
    None
}

/// Looks for the first child of a fragment's element with a matching name, and
/// compares its text content.
pub(crate) fn eval_child_filter_fast(
    fragment: &[u8],
    name: &NameMatcher,
    filter: &Filter,
    known: &Readings,
    asked: &mut Vec<String>,
) -> (r: bool)
    ensures
        r == child_test(fragment@, name@, filter@, known@).0,
        texts_view(final(asked)@) == texts_view(old(asked)@) + child_test(
            fragment@,
            name@,
            filter@,
            known@,
        ).1,
        all_unknown(texts_view(old(asked)@), known@) ==> all_unknown(
            texts_view(final(asked)@),
            known@,
        ),
{
    let mut scanner = Scanner::new(fragment, true);
    let ghost events = doc_of(fragment@).events;
    let mut entered = false;
    let ghost before = texts_view(asked@);
    assert(before + Seq::<Seq<char>>::empty() =~= before);
    proof {
        scanner.lemma_wf();
    }
    loop
        invariant
            scanner.wf(),
            scanner.doc() == doc_of(fragment@),
            events == scanner.events(),
            0 <= scanner.index() <= events.len(),
            before == texts_view(asked@),
            asked@ == old(asked)@,
            before + Seq::<Seq<char>>::empty() == before,
            child_text(events, 0, false, name@) == child_text(
                events,
                scanner.index(),
                entered,
                name@,
            ),
        decreases events.len() - scanner.index(),
    {
        match scanner.next() {
            XmlEvent::Start(tag) => {
                if !entered {
                    entered = true;
                } else if matches_tag(name, &tag) {
                    let text = read_text_in_scope(&mut scanner);
                    return compare(
                        utf8_or_empty(text.as_slice()),
                        filter.op,
                        &filter.value,
                        known,
                        asked,
                    );
                } else {
                    scanner.skip_element(tag.name());
                }
            },
            XmlEvent::Empty(tag) => {
                if !entered {
                    return false;
                }
                if matches_tag(name, &tag) {
                    proof {
                        reveal_strlit("");
                        assert(""@ =~= text_or_empty(Seq::empty())) by {
                            lemma_no_bytes();
                        }
                    }
                    return compare("", filter.op, &filter.value, known, asked);
                }
            },
            XmlEvent::End(_) => {
                return false;
            },
            XmlEvent::Eof => {
                return false;
            },
            _ => {},
        }
    }
}

/// No bytes encode no characters.
proof fn lemma_no_bytes()
    ensures
        text_or_empty(Seq::empty()) == Seq::<char>::empty(),
{
    reveal_with_fuel(decode_utf8, 2);
}

/// What a pass keeps to, from before to after a part of it: the document stays
/// the same, reading only moves on, and only unknown numerals are asked for.
pub open spec fn moved(before: Scanner, after: Scanner) -> bool {
    &&& after.wf()
    &&& after.doc() == before.doc()
    &&& before.index() <= after.index() <= before.events().len()
}

pub open spec fn still_unknown(before: SinkV, after: SinkV, known: ReadingsV) -> bool {
    all_unknown(before.asked, known) ==> all_unknown(after.asked, known)
}

/// Evaluates steps inside an empty element at a place.
pub(crate) fn handle_empty_inner(tag: &Tag, place: usize, steps: &[Step], sink: &mut Sink)
    ensures
        final(sink)@ == in_empty(tag@, place as nat, steps_view(steps@), old(sink)@),
{
    proof {
        lemma_steps_view(steps@);
    }
    if steps.len() == 0 {
        sink.push(place, Item::Element(tag.to_empty_element()));
        return ;
    }
    assert(steps_view(steps@)[0] == steps@[0]@);
    match &steps[0] {
        Step::Attribute(name) => {
            if let Some(value) = tag.attr(name.as_str()) {
                sink.push(place, Item::Scalar(value));
            }
        },
        Step::Text => {
            let empty: Vec<u8> = Vec::new();
            assert(empty@ =~= Seq::<u8>::empty());
            sink.push(place, Item::Scalar(empty));
        },
        Step::Child { .. } => {},
    }
}

/// Evaluates steps from where the scanner stands, inside the element
/// `current`, which is at a place, or at the top of the document.
fn enter(
    scanner: &mut Scanner,
    current: Option<&Tag>,
    place: usize,
    steps: &[Step],
    known: &Readings,
    sink: &mut Sink,
) -> (r: Result<(), Stop>)
    requires
        old(scanner).wf(),
        current is Some ==> old(scanner).index() > 0,
        place == match current {
            Some(_) => place_at(old(scanner).doc(), old(scanner).index() - 1),
            None => old(scanner).doc().base,
        },
    ensures
        moved(*old(scanner), *final(scanner)),
        still_unknown(old(sink)@, final(sink)@, known@),
        ({
            let ran = crate::semantics::enter(
                old(scanner).doc(),
                old(scanner).index(),
                match current {
                    Some(tag) => Some(tag@),
                    None => None,
                },
                steps_view(steps@),
                known@,
                old(sink)@,
            );
            &&& final(scanner).index() == ran.next
            &&& final(sink)@ == ran.sink
            &&& flow_of(r) == ran.flow
            &&& ran.flow !is Done
        }),
    decreases steps_view(steps@), old(scanner).left(), 4int,
{
    let ghost view = steps_view(steps@);
    proof {
        lemma_steps_view(steps@);
        scanner.lemma_wf();
    }
    if steps.len() == 0 {
        if current.is_none() {
            let empty: Vec<u8> = Vec::new();
            assert(empty@ =~= Seq::<u8>::empty());
            sink.push(place, Item::Scalar(empty));
        }
        return Ok(());
    }
    assert(view[0] == steps@[0]@);
    match &steps[0] {
        Step::Attribute(name) => {
            if let Some(tag) = current {
                if let Some(value) = tag.attr(name.as_str()) {
                    sink.push(place, Item::Scalar(value));
                }
            }
            consume_to_end(scanner, current.is_some());
            Ok(())
        },
        Step::Text => {
            if current.is_some() {
                let text = read_text_in_scope(scanner);
                sink.push(place, Item::Scalar(text));
            } else {
                let empty: Vec<u8> = Vec::new();
                assert(empty@ =~= Seq::<u8>::empty());
                sink.push(place, Item::Scalar(empty));
            }
            Ok(())
        },
        Step::Child { name, index, descendant } => {
            let ghost d = scanner.doc();
            let ghost start = scanner.index();
            let ghost sink0 = sink@;
            let ghost whole = scan(d, start, view, 0, known@, sink0);
            let mut count: usize = 0;
            loop
                invariant
                    scanner.wf(),
                    scanner.doc() == d,
                    d == old(scanner).doc(),
                    start == old(scanner).index(),
                    start <= scanner.index() <= d.events.len() <= usize::MAX,
                    count <= scanner.index(),
                    view == steps_view(steps@),
                    steps@.len() > 0,
                    view.len() == steps@.len(),
                    view[0] == step_parts(*name, *index, *descendant),
                    view[0] == steps@[0]@,
                    steps@[0] == (Step::Child {
                        name: *name,
                        index: *index,
                        descendant: *descendant,
                    }),
                    still_unknown(sink0, sink@, known@),
                    sink0 == old(sink)@,
                    whole == scan(d, start, view, 0, known@, sink0),
                    whole == scan(d, scanner.index(), view, count as nat, known@, sink@),
                    current is Some ==> old(scanner).index() > 0,
                decreases d.events.len() - scanner.index(),
            {
                let ghost i = scanner.index();
                let pos_before = scanner.position();
                proof {
                    scanner.lemma_wf();
                }
                let here = scanner.base() + pos_before;
                match scanner.next() {
                    XmlEvent::Start(tag) => {
                        if matches_tag(name, &tag) {
                            count = count + 1;
                            match handle_hit(
                                scanner,
                                &tag,
                                steps,
                                count,
                                known,
                                sink,
                                pos_before,
                            ) {
                                Ok(()) => {},
                                Err(Stop::Done) => {
                                    consume_to_end(scanner, true);
                                    return Ok(());
                                },
                                Err(stop) => {
                                    return Err(stop);
                                },
                            }
                        } else if *descendant {
                            match enter(
                                scanner,
                                Some(&tag),
                                here,
                                steps,
                                known,
                                sink,
                            ) {
                                Ok(()) => {},
                                Err(stop) => {
                                    return Err(stop);
                                },
                            }
                        } else {
                            scanner.skip_element(tag.name());
                        }
                    },
                    XmlEvent::Empty(tag) => {
                        if matches_tag(name, &tag) {
                            count = count + 1;
                            match handle_match_empty(
                                &tag,
                                here,
                                steps,
                                count,
                                known,
                                sink,
                            ) {
                                Ok(()) => {},
                                Err(Stop::Done) => {
                                    consume_to_end(scanner, true);
                                    return Ok(());
                                },
                                Err(stop) => {
                                    return Err(stop);
                                },
                            }
                        }
                    },
                    XmlEvent::End(_) => {
                        if let ChildIndex::Count = index {
                            sink.push(here, Item::Scalar(decimal_bytes(count)));
                        }
                        return Ok(());
                    },
                    XmlEvent::Eof => {
                        if let ChildIndex::Count = index {
                            sink.push(here, Item::Scalar(decimal_bytes(count)));
                        }
                        return Ok(());
                    },
                    XmlEvent::Error => {
                        return Ok(());
                    },
                    _ => {},
                }
            }
        },
    }
}

/// The content of a child step with these parts.
spec fn step_parts(name: NameMatcher, index: ChildIndex, descendant: bool) -> StepV {
    StepV::Child { name: name@, index: index@, descendant }
}

/// Evaluates the rest of the steps in a matched element whose start tag has
/// just been read: the element itself is captured, or entered.
fn descend_or_capture(
    scanner: &mut Scanner,
    tag: &Tag,
    rest: &[Step],
    known: &Readings,
    sink: &mut Sink,
    pos_before: usize,
) -> (r: Result<(), Stop>)
    requires
        old(scanner).wf(),
        old(scanner).index() > 0,
        pos_before == pos_at(old(scanner).events(), old(scanner).index() - 1),
    ensures
        moved(*old(scanner), *final(scanner)),
        still_unknown(old(sink)@, final(sink)@, known@),
        ({
            let ran = descend(
                old(scanner).doc(),
                old(scanner).index() - 1,
                tag@,
                steps_view(rest@),
                known@,
                old(sink)@,
            );
            &&& final(scanner).index() == ran.next
            &&& final(sink)@ == ran.sink
            &&& flow_of(r) == ran.flow
            &&& ran.flow !is Done
        }),
    decreases steps_view(rest@), old(scanner).left(), 5int,
{
    proof {
        lemma_steps_view(rest@);
        scanner.lemma_wf();
    }
    if rest.len() == 0 {
        scanner.skip_element(tag.name());
        let pos_after = scanner.position();
        sink.push(
            scanner.base() + pos_before,
            Item::Element(copy_bytes(scanner.slice(pos_before, pos_after))),
        );
        Ok(())
    } else {
        let place = scanner.base() + pos_before;
        enter(scanner, Some(tag), place, rest, known, sink)
    }
}

/// Whether a step looks for elements at any depth.
pub(crate) fn is_at_any_depth(step: &Step) -> (r: bool)
    ensures
        r == at_any_depth(step@),
{
    match step {
        Step::Child { descendant, .. } => *descendant,
        _ => false,
    }
}

/// Handles a matching element whose start tag has just been read, and where the
/// first step looks at any depth, the elements inside it as well.
pub(crate) fn handle_hit(
    scanner: &mut Scanner,
    tag: &Tag,
    steps: &[Step],
    count: usize,
    known: &Readings,
    sink: &mut Sink,
    pos_before: usize,
) -> (r: Result<(), Stop>)
    requires
        old(scanner).wf(),
        old(scanner).index() > 0,
        steps@.len() > 0,
        count > 0,
        pos_before == pos_at(old(scanner).events(), old(scanner).index() - 1),
    ensures
        moved(*old(scanner), *final(scanner)),
        still_unknown(old(sink)@, final(sink)@, known@),
        ({
            let ran = hit(
                old(scanner).doc(),
                old(scanner).index() - 1,
                tag@,
                steps_view(steps@),
                count as nat,
                known@,
                old(sink)@,
            );
            &&& final(scanner).index() == ran.next
            &&& final(sink)@ == ran.sink
            &&& flow_of(r) == ran.flow
        }),
    decreases steps_view(steps@), old(scanner).left(), 5int,
{
    proof {
        lemma_steps_view(steps@);
        scanner.lemma_wf();
        assert(steps_view(steps@)[0] == steps@[0]@);
    }
    if is_at_any_depth(&steps[0]) {
        let place = scanner.base() + pos_before;
        let mut inner = scanner.fork();
        match handle_match_start(scanner, tag, steps, count, known, sink, pos_before) {
            Ok(()) => enter(&mut inner, Some(tag), place, steps, known, sink),
            Err(stop) => Err(stop),
        }
    } else {
        handle_match_start(scanner, tag, steps, count, known, sink, pos_before)
    }
}

/// Handles a matching element whose start tag has just been read; it is the
/// `count`-th match of the first step.
fn handle_match_start(
    scanner: &mut Scanner,
    tag: &Tag,
    steps: &[Step],
    count: usize,
    known: &Readings,
    sink: &mut Sink,
    pos_before: usize,
) -> (r: Result<(), Stop>)
    requires
        old(scanner).wf(),
        old(scanner).index() > 0,
        steps@.len() > 0,
        count > 0,
        pos_before == pos_at(old(scanner).events(), old(scanner).index() - 1),
    ensures
        moved(*old(scanner), *final(scanner)),
        still_unknown(old(sink)@, final(sink)@, known@),
        ({
            let ran = start_hit(
                old(scanner).doc(),
                old(scanner).index() - 1,
                tag@,
                steps_view(steps@),
                count as nat,
                known@,
                old(sink)@,
            );
            &&& final(scanner).index() == ran.next
            &&& final(sink)@ == ran.sink
            &&& flow_of(r) == ran.flow
        }),
    decreases steps_view(steps@), old(scanner).left(), 1int,
{
    let ghost view = steps_view(steps@);
    let ghost d = scanner.doc();
    let ghost i = scanner.index() - 1;
    let rest = vstd::slice::slice_subrange(steps, 1, steps.len());
    proof {
        lemma_steps_view(steps@);
        lemma_steps_view_skip(steps@, 1);
        assert(steps@.skip(1) =~= rest@);
        assert(view.skip(1) =~= view.subrange(1, view.len() as int));
        scanner.lemma_wf();
        assert(view[0] == steps@[0]@);
    }
    match &steps[0] {
        Step::Child { name, index, .. } => match index {
            ChildIndex::Auto => {
                if rest.len() > 0 && count > 1 {
                    Err(Stop::Ambiguous(copy_text(name.as_source())))
                } else {
                    descend_or_capture(scanner, tag, rest, known, sink, pos_before)
                }
            },
            ChildIndex::Each => descend_or_capture(scanner, tag, rest, known, sink, pos_before),
            ChildIndex::Nth(n) => {
                if count - 1 == *n {
                    match descend_or_capture(scanner, tag, rest, known, sink, pos_before) {
                        Ok(()) => Err(Stop::Done),
                        Err(stop) => Err(stop),
                    }
                } else {
                    scanner.skip_element(tag.name());
                    Ok(())
                }
            },
            ChildIndex::Count => {
                scanner.skip_element(tag.name());
                Ok(())
            },
            ChildIndex::FilterFirst(filter) => handle_filter_start(
                scanner,
                tag,
                steps,
                filter,
                true,
                known,
                sink,
                pos_before,
            ),
            ChildIndex::FilterAll(filter) => handle_filter_start(
                scanner,
                tag,
                steps,
                filter,
                false,
                known,
                sink,
                pos_before,
            ),
        },
        _ => {
            scanner.skip_element(tag.name());
            Ok(())
        },
    }
}

/// Handles a candidate element of a filter whose start tag has just been read.
/// A predicate on an attribute is decided by the tag alone; for any other the
/// bytes of the candidate are read again.
pub(crate) fn handle_filter_start(
    scanner: &mut Scanner,
    tag: &Tag,
    steps: &[Step],
    filter: &Filter,
    first: bool,
    known: &Readings,
    sink: &mut Sink,
    pos_before: usize,
) -> (r: Result<(), Stop>)
    requires
        old(scanner).wf(),
        old(scanner).index() > 0,
        steps@.len() > 0,
        filter_of(steps_view(steps@)[0]) == Some(filter@),
        first == crate::semantics::wants_first(steps_view(steps@)[0]),
        pos_before == pos_at(old(scanner).events(), old(scanner).index() - 1),
    ensures
        moved(*old(scanner), *final(scanner)),
        still_unknown(old(sink)@, final(sink)@, known@),
        ({
            let ran = filter_hit(
                old(scanner).doc(),
                old(scanner).index() - 1,
                tag@,
                steps_view(steps@),
                known@,
                old(sink)@,
            );
            &&& final(scanner).index() == ran.next
            &&& final(sink)@ == ran.sink
            &&& flow_of(r) == ran.flow
        }),
    decreases steps_view(steps@), old(scanner).left(), 0int,
{
    let ghost view = steps_view(steps@);
    let rest = vstd::slice::slice_subrange(steps, 1, steps.len());
    proof {
        lemma_steps_view(steps@);
        lemma_steps_view_skip(steps@, 1);
        assert(steps@.skip(1) =~= rest@);
        assert(view.skip(1) =~= view.subrange(1, view.len() as int));
        scanner.lemma_wf();
    }
    if let Some(name) = &filter.attr_only {
        let ghost sink0 = sink@;
        let pass = match read_attr_str(tag, name.as_str()) {
            Some(text) => compare(
                text.as_str(),
                filter.op,
                &filter.value,
                known,
                &mut sink.asked,
            ),
            None => {
                assert(sink0.asked + Seq::<Seq<char>>::empty() =~= sink0.asked);
                false
            },
        };
        assert(sink@ == sink0.ask(attr_test(tag@, name@, filter@, known@).1));
        if pass {
            match descend_or_capture(scanner, tag, rest, known, sink, pos_before) {
                Ok(()) => if first {
                    Err(Stop::Done)
                } else {
                    Ok(())
                },
                Err(stop) => Err(stop),
            }
        } else {
            scanner.skip_element(tag.name());
            Ok(())
        }
    } else {
        scanner.skip_element(tag.name());
        let pos_after = scanner.position();
        let bytes = scanner.slice(pos_before, pos_after);
        match eval_filter(bytes, filter, known, sink) {
            Ok(true) => match apply_within_fragment(
                bytes,
                scanner.base() + pos_before,
                rest,
                known,
                sink,
            ) {
                Ok(()) => if first {
                    Err(Stop::Done)
                } else {
                    Ok(())
                },
                Err(stop) => Err(stop),
            },
            Ok(false) => Ok(()),
            Err(stop) => Err(stop),
        }
    }
}

/// Handles a matching empty element at a place; it is the `count`-th match of the first
/// step.
pub(crate) fn handle_match_empty(
    tag: &Tag,
    place: usize,
    steps: &[Step],
    count: usize,
    known: &Readings,
    sink: &mut Sink,
) -> (r: Result<(), Stop>)
    requires
        steps@.len() > 0,
        count > 0,
    ensures
        still_unknown(old(sink)@, final(sink)@, known@),
        ({
            let out = empty_hit(
                tag@,
                place as nat,
                steps_view(steps@),
                count as nat,
                known@,
                old(sink)@,
            );
            &&& final(sink)@ == out.sink
            &&& flow_of(r) == out.flow
        }),
    decreases steps_view(steps@), 0int, 0int,
{
    let ghost view = steps_view(steps@);
    let rest = vstd::slice::slice_subrange(steps, 1, steps.len());
    proof {
        lemma_steps_view(steps@);
        lemma_steps_view_skip(steps@, 1);
        assert(steps@.skip(1) =~= rest@);
        assert(view.skip(1) =~= view.subrange(1, view.len() as int));
        assert(view[0] == steps@[0]@);
    }
    match &steps[0] {
        Step::Child { name, index, .. } => {
            let (filter, first) = match index {
                ChildIndex::Auto => {
                    if rest.len() > 0 && count > 1 {
                        return Err(Stop::Ambiguous(copy_text(name.as_source())));
                    }
                    handle_empty_inner(tag, place, rest, sink);
                    return Ok(());
                },
                ChildIndex::Each => {
                    handle_empty_inner(tag, place, rest, sink);
                    return Ok(());
                },
                ChildIndex::Nth(n) => {
                    if count - 1 == *n {
                        handle_empty_inner(tag, place, rest, sink);
                        return Err(Stop::Done);
                    }
                    return Ok(());
                },
                ChildIndex::Count => {
                    return Ok(());
                },
                ChildIndex::FilterFirst(filter) => (filter, true),
                ChildIndex::FilterAll(filter) => (filter, false),
            };
            let bytes = tag.to_empty_element();
            match eval_filter(bytes.as_slice(), filter, known, sink) {
                Ok(true) => {
                    handle_empty_inner(tag, place, rest, sink);
                    if first {
                        Err(Stop::Done)
                    } else {
                        Ok(())
                    }
                },
                Ok(false) => Ok(()),
                Err(stop) => Err(stop),
            }
        },
        _ => Ok(()),
    }
}

/// Evaluates steps inside the first element of a fragment, which stands at the
/// offset `base`.
pub(crate) fn apply_within_fragment(
    bytes: &[u8],
    base: usize,
    steps: &[Step],
    known: &Readings,
    sink: &mut Sink,
) -> (r: Result<(), Stop>)
    requires
        base + bytes@.len() <= usize::MAX,
    ensures
        still_unknown(old(sink)@, final(sink)@, known@),
        flow_of(r) !is Done,
        ({
            let out = within(bytes@, base as nat, steps_view(steps@), known@, old(sink)@);
            &&& final(sink)@ == out.sink
            &&& flow_of(r) == out.flow
        }),
    decreases steps_view(steps@), doc_of(bytes@).events.len() + 1, 0int,
{
    proof {
        lemma_steps_view(steps@);
    }
    if steps.len() == 0 {
        sink.push(base, Item::Element(copy_bytes(bytes)));
        return Ok(());
    }
    let mut scanner = Scanner::part(bytes, base);
    let ghost d = doc_at(bytes@, base as nat);
    proof {
        scanner.lemma_wf();
    }
    loop
        invariant
            scanner.wf(),
            scanner.doc() == d,
            d == doc_at(bytes@, base as nat),
            0 <= scanner.index() <= d.events.len(),
            first_tag(d.events, 0) == first_tag(d.events, scanner.index()),
            sink@ == old(sink)@,
            steps_view(steps@).len() == steps@.len(),
            steps@.len() > 0,
        decreases d.events.len() - scanner.index(),
    {
        let pos_before = scanner.position();
        proof {
            scanner.lemma_wf();
        }
        match scanner.next() {
            XmlEvent::Start(tag) => {
                let place = scanner.base() + pos_before;
                return enter(&mut scanner, Some(&tag), place, steps, known, sink);
            },
            XmlEvent::Empty(tag) => {
                handle_empty_inner(&tag, scanner.base() + pos_before, steps, sink);
                return Ok(());
            },
            XmlEvent::Eof => {
                return Ok(());
            },
            _ => {},
        }
    }
}

/// How a predicate ended.
pub open spec fn tested_flow(r: Result<bool, Stop>) -> FlowV {
    match r {
        Ok(_) => FlowV::Go,
        Err(stop) => flow_of(Err(stop)),
    }
}

/// Tells whether a candidate element passes a filter.
pub(crate) fn eval_filter(bytes: &[u8], filter: &Filter, known: &Readings, sink: &mut Sink) -> (r: Result<
    bool,
    Stop,
>)
    ensures
        still_unknown(old(sink)@, final(sink)@, known@),
        ({
            let t = filter_test(bytes@, filter@, known@, old(sink)@);
            &&& final(sink)@ == t.sink
            &&& tested_flow(r) == t.flow
            &&& t.flow !is Done
            &&& r matches Ok(pass) ==> pass == t.pass
        }),
    decreases filter@.path, doc_of(bytes@).events.len() + 2, 0int,
{
    if let Some(name) = simple_child_filter(filter) {
        return Ok(eval_child_filter_fast(bytes, name, filter, known, &mut sink.asked));
    }
    let asked = take_texts(&mut sink.asked);
    let mut values = Sink { items: Vec::new(), asked };
    assert(values@ == (SinkV { items: Seq::empty(), asked: old(sink)@.asked })) by {
        assert(values@.items =~= Seq::empty());
    }
    assert(bytes.len() == bytes@.len());
    match apply_within_fragment(bytes, 0, filter.path.as_slice(), known, &mut values) {
        Ok(()) => {},
        Err(stop) => {
            sink.asked = values.asked;
            return Err(stop);
        },
    }
    sink.asked = values.asked;
    if values.items.len() == 0 {
        return Ok(false);
    }
    assert(found_view(values.items@)[0] == values.items@[0]@);
    let text = item_text(&values.items[0].item);
    Ok(
        compare(
            utf8_or_empty(text.as_slice()),
            filter.op,
            &filter.value,
            known,
            &mut sink.asked,
        ),
    )
}

/// Takes the texts out of a list.
fn take_texts(texts: &mut Vec<String>) -> (r: Vec<String>)
    ensures
        r@ == old(texts)@,
{
    let mut r: Vec<String> = Vec::new();
    std::mem::swap(&mut r, texts);
    r
}

/// The outcome of a query, from what its pass has collected and how it ended.
/// What has been collected at one place counts once.
pub open spec fn outcome(
    sink: SinkV,
    flow: FlowV,
    modifiers: Seq<Modifier>,
    known: ReadingsV,
) -> Result<Seq<ItemV>, ErrorV> {
    if sink.asked.len() > 0 {
        Err(ErrorV::NumbersNeeded(sink.asked))
    } else {
        match flow {
            FlowV::Ambiguous(name) => Err(ErrorV::Ambiguous(name)),
            _ => all_modified(modifiers, once(sink.items), known),
        }
    }
}

/// What a program selects in a document.
pub open spec fn selected(program: ProgramV, xml: Seq<u8>, known: ReadingsV) -> Result<
    Seq<ItemV>,
    ErrorV,
> {
    if program.steps.len() == 0 {
        outcome(nothing(), FlowV::Go, program.modifiers, known)
    } else {
        let r = crate::semantics::enter(doc_of(xml), 0, None, program.steps, known, nothing());
        outcome(r.sink, r.flow, program.modifiers, known)
    }
}

/// What a program selects inside the first element of a fragment.
pub open spec fn selected_within(program: ProgramV, bytes: Seq<u8>, known: ReadingsV) -> Result<
    Seq<ItemV>,
    ErrorV,
> {
    if program.steps.len() == 0 {
        outcome(nothing(), FlowV::Go, program.modifiers, known)
    } else {
        let r = within(bytes, 0, program.steps, known, nothing());
        outcome(r.sink, r.flow, program.modifiers, known)
    }
}

/// Whether the result of a query is what is meant.
pub open spec fn is_outcome(
    r: Result<Vec<Item>, EngineError>,
    meant: Result<Seq<ItemV>, ErrorV>,
) -> bool {
    match r {
        Ok(items) => meant == Ok::<Seq<ItemV>, ErrorV>(items_view(items@)),
        Err(error) => meant == Err::<Seq<ItemV>, ErrorV>(error@),
    }
}

/// Ends a query.
fn conclude(
    sink: Sink,
    ended: Result<(), Stop>,
    modifiers: &Vec<Modifier>,
    known: &Readings,
) -> (r: Result<Vec<Item>, EngineError>)
    requires
        all_unknown(sink@.asked, known@),
    ensures
        is_outcome(r, outcome(sink@, flow_of(ended), modifiers@, known@)),
        r matches Err(error) ==> asks_unknown(error@, known@),
{
    proof {
        law_modifiers_ask_unknown(modifiers@, once(sink@.items), known@);
    }
    assert(sink@.asked.len() == sink.asked@.len());
    if sink.asked.len() > 0 {
        return Err(EngineError::NumbersNeeded { texts: sink.asked });
    }
    if let Err(Stop::Ambiguous(name)) = ended {
        return Err(EngineError::AmbiguousMatch { name });
    }
    let mut items = collected(sink.items);
    match apply_modifiers(modifiers.as_slice(), &mut items, known) {
        Ok(()) => Ok(items),
        Err(error) => Err(error),
    }
}

/// Evaluates a program over a document. Where the program has to know the
/// numbers that numerals stand for, it says so: see [`run_with_readings`].
pub fn run(program: &Program, xml: &[u8]) -> (r: Result<Vec<Item>, EngineError>)
    ensures
        is_outcome(r, selected(program@, xml@, no_readings())),
{
    run_with_readings(program, xml, &Readings::new())
}

/// Evaluates a program over a document, with what is known of its numerals.
/// Where more has to be known the error tells what, and the caller can come
/// back with it: what is asked for is never known already.
pub fn run_with_readings(program: &Program, xml: &[u8], known: &Readings) -> (r: Result<
    Vec<Item>,
    EngineError,
>)
    ensures
        is_outcome(r, selected(program@, xml@, known@)),
        r matches Err(error) ==> asks_unknown(error@, known@),
{
    proof {
        lemma_steps_view(program.steps@);
    }
    let mut sink = Sink::new();
    let mut ended = Ok(());
    if program.steps.len() > 0 {
        let mut scanner = Scanner::new(xml, true);
        ended = enter(&mut scanner, None, 0, program.steps.as_slice(), known, &mut sink);
    }
    conclude(sink, ended, &program.modifiers, known)
}

/// Evaluates a program inside the first element of a fragment, which is the
/// scope that the path starts from.
pub fn run_within(program: &Program, fragment: &[u8]) -> (r: Result<Vec<Item>, EngineError>)
    ensures
        is_outcome(r, selected_within(program@, fragment@, no_readings())),
{
    run_within_with_readings(program, fragment, &Readings::new())
}

/// Evaluates a program inside the first element of a fragment, with what is
/// known of its numerals.
pub fn run_within_with_readings(program: &Program, fragment: &[u8], known: &Readings) -> (r: Result<
    Vec<Item>,
    EngineError,
>)
    ensures
        is_outcome(r, selected_within(program@, fragment@, known@)),
        r matches Err(error) ==> asks_unknown(error@, known@),
{
    proof {
        lemma_steps_view(program.steps@);
    }
    let mut sink = Sink::new();
    let mut ended = Ok(());
    if program.steps.len() > 0 {
        assert(fragment.len() == fragment@.len());
        ended = apply_within_fragment(fragment, 0, program.steps.as_slice(), known, &mut sink);
    }
    conclude(sink, ended, &program.modifiers, known)
}

/// How many elements are open before the event `i`.
pub open spec fn depth_at(events: Seq<EventAt>, i: int) -> int
    decreases i,
{
    if i <= 0 {
        0
    } else {
        depth_at(events, i - 1) + match events[i - 1].event {
            EventV::Start(_) => 1int,
            EventV::End(_) => -1int,
            _ => 0int,
        }
    }
}

/// How many elements stand at the top of the document before the event `i`.
pub open spec fn roots_before(events: Seq<EventAt>, i: int) -> nat
    decreases i,
{
    if i <= 0 {
        0
    } else {
        roots_before(events, i - 1) + if depth_at(events, i - 1) == 0 && (events[i
            - 1].event is Start || events[i - 1].event is Empty) {
            1nat
        } else {
            0nat
        }
    }
}

/// Whether bytes are white space, as XML has it.
pub open spec fn blank(bytes: Seq<u8>) -> bool {
    forall|i: int|
        0 <= i < bytes.len() ==> (#[trigger] bytes[i] == 0x20 || bytes[i] == 0x09 || bytes[i]
            == 0x0a || bytes[i] == 0x0d)
}

/// Whether an event may stand outside the root element, as far as text goes:
/// there is only white space there.
pub open spec fn fits_outside(event: EventV) -> bool {
    match event {
        EventV::Text(bytes) => blank(bytes),
        EventV::CData(_) => false,
        _ => true,
    }
}

/// The names of the elements that are open before the event `i`, the innermost
/// last; none where an end tag before it does not carry the name of the innermost
/// open element.
pub open spec fn open_names(events: Seq<EventAt>, i: int) -> Option<Seq<Seq<u8>>>
    decreases i,
{
    if i <= 0 {
        Some(Seq::empty())
    } else {
        match open_names(events, i - 1) {
            Some(open) => match events[i - 1].event {
                EventV::Start(tag) => Some(open.push(tag.name())),
                EventV::End(name) => if open.len() > 0 && open.last() == name {
                    Some(open.drop_last())
                } else {
                    None
                },
                _ => Some(open),
            },
            None => None,
        }
    }
}

/// Whether events make a well-formed document: nothing that the parser does
/// not accept, every end tag with the name of the element that it closes and
/// nothing left open, one root element, and no text outside it.
pub open spec fn well_formed(events: Seq<EventAt>) -> bool {
    &&& forall|i: int|
        #![trigger events[i]]
        0 <= i < events.len() && depth_at(events, i) == 0 ==> fits_outside(events[i].event)
    &&& forall|i: int| 0 <= i < events.len() ==> #[trigger] events[i].event !is Error
    &&& open_names(events, events.len() as int) == Some(Seq::<Seq<u8>>::empty())
    &&& roots_before(events, events.len() as int) == 1
}

proof fn lemma_roots_grow(events: Seq<EventAt>, i: int, j: int)
    requires
        i <= j,
    ensures
        roots_before(events, i) <= roots_before(events, j),
    decreases j - i,
{
    if i < j {
        lemma_roots_grow(events, i, j - 1);
    }
}

/// Tells whether bytes are white space.
fn is_blank(bytes: &[u8]) -> (r: bool)
    ensures
        r == blank(bytes@),
{
    for i in 0..bytes.len()
        invariant
            forall|j: int|
                0 <= j < i ==> (#[trigger] bytes@[j] == 0x20 || bytes@[j] == 0x09 || bytes@[j]
                    == 0x0a || bytes@[j] == 0x0d),
    {
        let b = bytes[i];
        if b != 0x20 && b != 0x09 && b != 0x0a && b != 0x0d {
            assert(bytes@[i as int] == b);
            return false;
        }
    }
    true
}

/// The contents of a list of names.
spec fn names_view(names: Seq<Vec<u8>>) -> Seq<Seq<u8>> {
    Seq::new(names.len(), |k: int| names[k]@)
}

/// Tells whether a document is well-formed. Such a document is tidy: every element
/// has an end.
pub fn validate(xml: &[u8]) -> (r: bool)
    ensures
        r == well_formed(doc_of(xml@).events),
        r ==> tidy(doc_of(xml@).events),
        ordered(doc_of(xml@).events, xml@.len()),
{
    let mut scanner = Scanner::new(xml, true);
    let ghost events = doc_of(xml@).events;
    let mut open: Vec<Vec<u8>> = Vec::new();
    let mut roots: usize = 0;
    proof {
        scanner.lemma_wf();
        assert(names_view(open@) =~= Seq::empty());
    }
    loop
        invariant
            scanner.wf(),
            scanner.doc() == doc_of(xml@),
            events == scanner.events(),
            ordered(events, xml@.len()),
            0 <= scanner.index() <= events.len() <= usize::MAX,
            open@.len() == depth_at(events, scanner.index()),
            open_names(events, scanner.index()) == Some(names_view(open@)),
            roots == roots_before(events, scanner.index()),
            roots <= 1,
            forall|i: int|
                #![trigger events[i]]
                0 <= i < scanner.index() && depth_at(events, i) == 0 ==> fits_outside(
                    events[i].event,
                ),
            forall|i: int| 0 <= i < scanner.index() ==> #[trigger] events[i].event !is Error,
        decreases events.len() - scanner.index(),
    {
        let ghost i = scanner.index();
        let ghost before = names_view(open@);
        proof {
            if i < events.len() {
                lemma_roots_grow(events, i + 1, events.len() as int);
                if well_formed(events) {
                    lemma_open_before(events, i + 1);
                }
            }
        }
        match scanner.next() {
            XmlEvent::Start(tag) => {
                if open.len() == 0 {
                    roots = roots + 1;
                    if roots > 1 {
                        return false;
                    }
                }
                open.push(copy_bytes(tag.name()));
                assert(names_view(open@) =~= before.push(tag@.name()));
            },
            XmlEvent::End(name) => {
                let n = open.len();
                if n == 0 || !same_bytes(open[n - 1].as_slice(), name.as_slice()) {
                    return false;
                }
                let _ = open.pop();
                assert(names_view(open@) =~= before.drop_last());
            },
            XmlEvent::Empty(_) => {
                if open.len() == 0 {
                    roots = roots + 1;
                    if roots > 1 {
                        return false;
                    }
                }
            },
            XmlEvent::Text(bytes) => {
                if open.len() == 0 && !is_blank(bytes.as_slice()) {
                    return false;
                }
            },
            XmlEvent::CData(_) => {
                if open.len() == 0 {
                    return false;
                }
            },
            XmlEvent::Eof => {
                proof {
                    if open@.len() == 0 {
                        assert(names_view(open@) =~= Seq::empty());
                    } else {
                        assert(names_view(open@).len() > 0);
                    }
                    if well_formed(events) {
                        law_well_formed_is_tidy(events);
                    }
                }
                return open.len() == 0 && roots == 1;
            },
            XmlEvent::Error => {
                return false;
            },
            _ => {},
        }
    }
}

} // verus!
