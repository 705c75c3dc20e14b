//! What a path selects: the meaning of step programs over the events of a
//! document.

use vstd::prelude::*;
use vstd::utf8::{decode_utf8, valid_utf8};

use crate::number::{is_numeral, Number, ReadingsV};
use crate::path::{FilterOp, FilterV, IndexV, StepV, ValueV};
use crate::text::{decimal, text_or_empty, trimmed};
use crate::wildcard::{matcher_of, MatcherV};
use crate::xml::{
    after_element, attr_value, doc_at, doc_of, empty_element, local_name, place_at, pos_at,
    text_content, DocV, EventAt, EventV, TagV,
};

verus! {

/// A result entry.
pub enum ItemV {
    /// The full bytes of a matched element.
    Element(Seq<u8>),
    /// The place of a matched element in the document.
    ElementRef { start: u32, end: u32 },
    /// The value of an attribute, explicit text, a count or an aggregate.
    Scalar(Seq<u8>),
    /// The text content of a matched element.
    Text(Seq<u8>),
}

/// A result entry with the place it has been found at: for an element, or a
/// value of one, the offset of its start tag; for a count, that of the end of
/// the scope that has been counted.
pub struct FoundV {
    pub place: nat,
    pub item: ItemV,
}

/// What a pass has collected: result entries, and the numerals whose numbers
/// it would have to know.
pub struct SinkV {
    pub items: Seq<FoundV>,
    pub asked: Seq<Seq<char>>,
}

impl SinkV {
    pub open spec fn push(self, place: nat, item: ItemV) -> SinkV {
        SinkV { items: self.items.push(FoundV { place, item }), asked: self.asked }
    }

    pub open spec fn ask(self, texts: Seq<Seq<char>>) -> SinkV {
        SinkV { items: self.items, asked: self.asked + texts }
    }
}

/// A pass that has collected nothing.
pub open spec fn nothing() -> SinkV {
    SinkV { items: Seq::empty(), asked: Seq::empty() }
}

/// Whether something has been found at a place.
pub open spec fn found_at(found: Seq<FoundV>, place: nat) -> bool {
    exists|i: int| 0 <= i < found.len() && (#[trigger] found[i]).place == place
}

/// What has been found, without what has been found at the same place before:
/// several ways may lead a path to one element.
pub open spec fn firsts(found: Seq<FoundV>) -> Seq<FoundV>
    decreases found.len(),
{
    if found.len() == 0 {
        found
    } else {
        let before = firsts(found.drop_last());
        if found_at(before, found.last().place) {
            before
        } else {
            before.push(found.last())
        }
    }
}

/// The entries by themselves.
pub open spec fn entries(found: Seq<FoundV>) -> Seq<ItemV> {
    Seq::new(found.len(), |i: int| found[i].item)
}

/// The result entries of a pass, each place once, in the order in which the
/// places have first been found.
pub open spec fn once(found: Seq<FoundV>) -> Seq<ItemV> {
    entries(firsts(found))
}

/// How a part of a pass ends.
pub enum FlowV {
    /// The pass goes on.
    Go,
    /// The one element that a step selects in its scope has been found.
    Done,
    /// A bare name before further steps matches several elements.
    Ambiguous(Seq<char>),
}

/// The outcome of a part of a pass: the event at which it goes on, what has
/// been collected, and how it ends.
pub struct Ran {
    pub next: int,
    pub sink: SinkV,
    pub flow: FlowV,
}

/// The outcome of a part of a pass that reads no event.
pub struct Out {
    pub sink: SinkV,
    pub flow: FlowV,
}

/// The outcome of a predicate on a candidate element.
pub struct Tested {
    pub pass: bool,
    pub sink: SinkV,
    pub flow: FlowV,
}

/// Whether a name pattern matches an element.
pub open spec fn hits(name: MatcherV, tag: TagV) -> bool {
    name.matches_bytes(tag.name(), local_name(tag.name()))
}

/// The text content of an element from the event `i` on, `depth` levels inside
/// it: all texts and CDATA sections at any depth, up to the end of the element.
pub open spec fn scope_text(events: Seq<EventAt>, i: int, depth: nat) -> Seq<u8>
    decreases events.len() - i,
{
    if i < 0 || i >= events.len() {
        Seq::empty()
    } else {
        match events[i].event {
            EventV::Start(_) => scope_text(events, i + 1, depth + 1),
            EventV::End(_) => if depth <= 1 {
                Seq::empty()
            } else {
                scope_text(events, i + 1, (depth - 1) as nat)
            },
            EventV::Text(raw) => text_content(raw) + scope_text(events, i + 1, depth),
            EventV::CData(raw) => raw + scope_text(events, i + 1, depth),
            _ => scope_text(events, i + 1, depth),
        }
    }
}

/// Where the element ends that the event `i` stands `depth` levels inside of.
pub open spec fn scope_end(events: Seq<EventAt>, i: int, depth: nat) -> int
    decreases events.len() - i,
{
    if i < 0 || i >= events.len() {
        i
    } else {
        match events[i].event {
            EventV::Start(_) => scope_end(events, i + 1, depth + 1),
            EventV::End(_) => if depth <= 1 {
                i + 1
            } else {
                scope_end(events, i + 1, (depth - 1) as nat)
            },
            _ => scope_end(events, i + 1, depth),
        }
    }
}

/// Whether the scope that the event `i` stands `depth` levels inside of has an
/// end tag.
pub open spec fn closes(events: Seq<EventAt>, i: int, depth: nat) -> bool
    decreases events.len() - i,
{
    if i < 0 || i >= events.len() {
        false
    } else {
        match events[i].event {
            EventV::Start(_) => closes(events, i + 1, depth + 1),
            EventV::End(_) => depth <= 1 || closes(events, i + 1, (depth - 1) as nat),
            _ => closes(events, i + 1, depth),
        }
    }
}

/// Whether the element whose start tag is the event `i` is closed by an end tag
/// of its name.
pub open spec fn closed_by_name(events: Seq<EventAt>, i: int, tag: TagV) -> bool {
    closes(events, i + 1, 1) && events[scope_end(events, i + 1, 1) - 1].event == EventV::End(
        tag.name(),
    )
}

/// Whether the parser accepts everything, and every start tag has an end tag of
/// its name that closes it.
pub open spec fn tidy(events: Seq<EventAt>) -> bool {
    &&& forall|i: int| 0 <= i < events.len() ==> #[trigger] events[i].event !is Error
    &&& forall|i: int|
        0 <= i < events.len() ==> match #[trigger] events[i].event {
            EventV::Start(tag) => closed_by_name(events, i, tag),
            _ => true,
        }
}

/// The first tag from the event `i` on, of an empty element or not.
pub open spec fn first_tag(events: Seq<EventAt>, i: int) -> Option<int>
    decreases events.len() - i,
{
    if i < 0 || i >= events.len() {
        None
    } else if events[i].event is Start || events[i].event is Empty {
        Some(i)
    } else {
        first_tag(events, i + 1)
    }
}

/// The text content of the first element of a fragment.
pub open spec fn element_text(fragment: Seq<u8>) -> Seq<u8> {
    let events = doc_of(fragment).events;
    match first_tag(events, 0) {
        Some(k) => if events[k].event is Start {
            scope_text(events, k + 1, 1)
        } else {
            Seq::empty()
        },
        None => Seq::empty(),
    }
}

/// The text of a result entry.
pub open spec fn text_of(item: ItemV) -> Seq<u8> {
    match item {
        ItemV::Scalar(bytes) => bytes,
        ItemV::Text(bytes) => bytes,
        ItemV::Element(fragment) => element_text(fragment),
        ItemV::ElementRef { .. } => Seq::empty(),
    }
}

/// The numerals among two texts whose numbers are not known.
pub open spec fn unknown(a: Seq<char>, b: Seq<char>, known: ReadingsV) -> Seq<Seq<char>> {
    let first = if known.numbers.contains_key(a) {
        Seq::empty()
    } else {
        seq![a]
    };
    if known.numbers.contains_key(b) {
        first
    } else {
        first.push(b)
    }
}

/// The order that a filter operator asks for.
pub open spec fn related(op: FilterOp, a: Number, b: Number) -> bool {
    match op {
        FilterOp::Eq => a.same(b),
        FilterOp::Lt => a.below(b),
        FilterOp::Le => a.below(b) || a.same(b),
        FilterOp::Gt => b.below(a),
        FilterOp::Ge => b.below(a) || a.same(b),
        _ => false,
    }
}

/// Compares two texts as numbers. Texts that are no numerals compare as false;
/// where a number is not known, it is asked for, and the outcome is false.
pub open spec fn compare_numbers(
    raw: Seq<char>,
    op: FilterOp,
    value: Seq<char>,
    known: ReadingsV,
) -> (bool, Seq<Seq<char>>) {
    let a = trimmed(raw);
    let b = trimmed(value);
    if !is_numeral(a) || !is_numeral(b) {
        (false, Seq::empty())
    } else if unknown(a, b, known).len() > 0 {
        (false, unknown(a, b, known))
    } else {
        (related(op, known.numbers[a], known.numbers[b]), Seq::empty())
    }
}

/// Compares a text with the value of a filter: the outcome, and the numerals
/// whose numbers it would have to know.
pub open spec fn compare(raw: Seq<char>, op: FilterOp, value: ValueV, known: ReadingsV) -> (
    bool,
    Seq<Seq<char>>,
)
    decreases
            (if op == FilterOp::Ne {
                1int
            } else {
                0
            }),
{
    match op {
        FilterOp::Eq => match value {
            ValueV::Text(s) => (raw == s, Seq::empty()),
            ValueV::Number(n) => compare_numbers(raw, op, n, known),
            ValueV::Bool(b) => (raw == bool_text(b), Seq::empty()),
        },
        FilterOp::Ne => {
            let (same, asked) = compare(raw, FilterOp::Eq, value, known);
            (asked.len() == 0 && !same, asked)
        },
        FilterOp::GlobMatch => match value {
            ValueV::Text(pattern) => (matcher_of(pattern).matches(raw, raw), Seq::empty()),
            _ => (false, Seq::empty()),
        },
        FilterOp::GlobNotMatch => match value {
            ValueV::Text(pattern) => (!matcher_of(pattern).matches(raw, raw), Seq::empty()),
            _ => (false, Seq::empty()),
        },
        _ => match value {
            ValueV::Text(s) => compare_numbers(raw, op, s, known),
            ValueV::Number(n) => compare_numbers(raw, op, n, known),
            ValueV::Bool(_) => (false, Seq::empty()),
        },
    }
}

/// How a truth value is written.
pub open spec fn bool_text(b: bool) -> Seq<char> {
    if b {
        seq!['t', 'r', 'u', 'e']
    } else {
        seq!['f', 'a', 'l', 's', 'e']
    }
}

/// The first child of a candidate element with a matching name, from the event
/// `i` on: its text content. `entered` tells whether the candidate's own start
/// tag has been read.
pub open spec fn child_text(events: Seq<EventAt>, i: int, entered: bool, name: MatcherV) -> Option<
    Seq<u8>,
>
    decreases events.len() - i,
{
    if i < 0 || i >= events.len() {
        None
    } else {
        match events[i].event {
            EventV::Start(tag) => if !entered {
                child_text(events, i + 1, true, name)
            } else if hits(name, tag) {
                Some(scope_text(events, i + 1, 1))
            } else {
                child_text(events, after(events, i, tag), true, name)
            },
            EventV::Empty(tag) => if !entered {
                None
            } else if hits(name, tag) {
                Some(Seq::empty())
            } else {
                child_text(events, i + 1, true, name)
            },
            EventV::End(_) => None,
            _ => child_text(events, i + 1, entered, name),
        }
    }
}

/// Where reading goes on behind the element whose start tag is the event `i`.
pub open spec fn after(events: Seq<EventAt>, i: int, tag: TagV) -> int {
    onward(events, i, after_element(events, i + 1, tag.name()))
}

/// Reading goes on at `j`, and in any case at an event behind `i`.
pub open spec fn onward(events: Seq<EventAt>, i: int, j: int) -> int {
    if i < j <= events.len() {
        j
    } else {
        i + 1
    }
}

/// The name of a filter's predicate path, where that is one bare child name.
pub open spec fn simple_child(filter: FilterV) -> Option<MatcherV> {
    if filter.path.len() == 1 {
        match filter.path[0] {
            StepV::Child { name, index: IndexV::Auto, descendant: false } => Some(name),
            _ => None,
        }
    } else {
        None
    }
}

/// The value of an attribute as text, where it is valid UTF-8.
pub open spec fn attr_text(tag: TagV, name: Seq<char>) -> Option<Seq<char>> {
    match attr_value(tag, name) {
        Some(bytes) => if valid_utf8(bytes) {
            Some(decode_utf8(bytes))
        } else {
            None
        },
        None => None,
    }
}

/// A predicate on an attribute: a missing attribute, or one that is no text,
/// does not pass.
pub open spec fn attr_test(tag: TagV, name: Seq<char>, filter: FilterV, known: ReadingsV) -> (
    bool,
    Seq<Seq<char>>,
) {
    match attr_text(tag, name) {
        Some(text) => compare(text, filter.op, filter.value, known),
        None => (false, Seq::empty()),
    }
}

/// What a path selects inside an empty element at a place.
pub open spec fn in_empty(tag: TagV, place: nat, steps: Seq<StepV>, sink: SinkV) -> SinkV {
    if steps.len() == 0 {
        sink.push(place, ItemV::Element(empty_element(tag)))
    } else {
        match steps[0] {
            StepV::Attribute(name) => match attr_value(tag, name) {
                Some(value) => sink.push(place, ItemV::Scalar(value)),
                None => sink,
            },
            StepV::Text => sink.push(place, ItemV::Scalar(Seq::empty())),
            StepV::Child { .. } => sink,
        }
    }
}

/// What is collected at the end of a scope, which is at a place.
pub open spec fn finish(index: IndexV, count: nat, place: nat, sink: SinkV) -> SinkV {
    if index is Count {
        sink.push(place, ItemV::Scalar(decimal(count)))
    } else {
        sink
    }
}

/// A selector of one element is done, in its own scope, as soon as it has found
/// that element.
pub open spec fn done_if(found: bool, flow: FlowV) -> FlowV {
    if flow is Go && found {
        FlowV::Done
    } else {
        flow
    }
}

/// What steps select from the event `i` on, inside the element `current`, or
/// at the top of the document.
pub open spec fn enter(
    d: DocV,
    i: int,
    current: Option<TagV>,
    steps: Seq<StepV>,
    known: ReadingsV,
    sink: SinkV,
) -> Ran
    decreases steps, d.events.len() - i, 4int,
{
    if steps.len() == 0 {
        let all = if current is None {
            sink.push(d.base, ItemV::Scalar(Seq::empty()))
        } else {
            sink
        };
        Ran { next: i, sink: all, flow: FlowV::Go }
    } else {
        match steps[0] {
            StepV::Attribute(name) => match current {
                Some(tag) => {
                    let all = match attr_value(tag, name) {
                        Some(value) => sink.push(place_at(d, i - 1), ItemV::Scalar(value)),
                        None => sink,
                    };
                    Ran { next: scope_end(d.events, i, 1), sink: all, flow: FlowV::Go }
                },
                None => Ran { next: d.events.len() as int, sink, flow: FlowV::Go },
            },
            StepV::Text => match current {
                Some(_) => Ran {
                    next: scope_end(d.events, i, 1),
                    sink: sink.push(
                        place_at(d, i - 1),
                        ItemV::Scalar(scope_text(d.events, i, 1)),
                    ),
                    flow: FlowV::Go,
                },
                None => Ran {
                    next: i,
                    sink: sink.push(d.base, ItemV::Scalar(Seq::empty())),
                    flow: FlowV::Go,
                },
            },
            StepV::Child { .. } => scan(d, i, steps, 0, known, sink),
        }
    }
}

/// What steps that start with a child step select among the elements from the
/// event `i` on to the end of the scope. `count` children have matched before.
/// Once a selector of one element has found it, the rest of the scope is read
/// over; the elements around the scope are not concerned.
pub open spec fn scan(
    d: DocV,
    i: int,
    steps: Seq<StepV>,
    count: nat,
    known: ReadingsV,
    sink: SinkV,
) -> Ran
    decreases steps, d.events.len() - i, 3int,
    when steps.len() > 0
{
    match steps[0] {
        StepV::Child { name, index, descendant } => if i < 0 || i >= d.events.len() {
            Ran { next: i, sink: finish(index, count, place_at(d, i), sink), flow: FlowV::Go }
        } else {
            match d.events[i].event {
                EventV::Start(tag) => if hits(name, tag) {
                    let r = hit(d, i, tag, steps, count + 1, known, sink);
                    let next = onward(d.events, i, r.next);
                    match r.flow {
                        FlowV::Go => scan(d, next, steps, count + 1, known, r.sink),
                        FlowV::Done => scope_over(d, next, r.sink),
                        _ => r,
                    }
                } else if descendant {
                    let r = enter(d, i + 1, Some(tag), steps, known, sink);
                    if r.flow is Go {
                        scan(d, onward(d.events, i, r.next), steps, count, known, r.sink)
                    } else {
                        r
                    }
                } else {
                    scan(d, after(d.events, i, tag), steps, count, known, sink)
                },
                EventV::Empty(tag) => if hits(name, tag) {
                    let r = empty_hit(tag, place_at(d, i), steps, count + 1, known, sink);
                    match r.flow {
                        FlowV::Go => scan(d, i + 1, steps, count + 1, known, r.sink),
                        FlowV::Done => scope_over(d, i + 1, r.sink),
                        _ => Ran { next: i + 1, sink: r.sink, flow: r.flow },
                    }
                } else {
                    scan(d, i + 1, steps, count, known, sink)
                },
                EventV::End(_) => Ran {
                    next: i + 1,
                    sink: finish(index, count, place_at(d, i), sink),
                    flow: FlowV::Go,
                },
                EventV::Error => Ran { next: i + 1, sink, flow: FlowV::Go },
                _ => scan(d, i + 1, steps, count, known, sink),
            }
        },
        _ => Ran { next: i, sink, flow: FlowV::Go },
    }
}

/// The rest of a scope in which nothing more is looked for.
pub open spec fn scope_over(d: DocV, i: int, sink: SinkV) -> Ran {
    Ran { next: scope_end(d.events, i, 1), sink, flow: FlowV::Go }
}

/// Whether a step looks for elements at any depth.
pub open spec fn at_any_depth(step: StepV) -> bool {
    step matches StepV::Child { descendant: true, .. }
}

/// What a step selects in a matching element whose start tag is the event `i`;
/// the element is the `count`-th match. A step that looks at any depth goes on
/// with the elements inside.
pub open spec fn hit(
    d: DocV,
    i: int,
    tag: TagV,
    steps: Seq<StepV>,
    count: nat,
    known: ReadingsV,
    sink: SinkV,
) -> Ran
    decreases steps, d.events.len() - i, 2int,
    when steps.len() > 0
{
    let r = start_hit(d, i, tag, steps, count, known, sink);
    if r.flow is Go && at_any_depth(steps[0]) && i < d.events.len() {
        Ran { next: r.next, ..enter(d, i + 1, Some(tag), steps, known, r.sink) }
    } else {
        r
    }
}

/// What the rest of the steps selects in the matched element whose start tag
/// is the event `i`: the element itself, or what is found inside it.
pub open spec fn descend(
    d: DocV,
    i: int,
    tag: TagV,
    rest: Seq<StepV>,
    known: ReadingsV,
    sink: SinkV,
) -> Ran
    decreases rest, d.events.len() - i, 5int,
{
    if rest.len() == 0 {
        let j = after(d.events, i, tag);
        Ran {
            next: j,
            sink: sink.push(place_at(d, i), ItemV::Element(fragment(d, i, j))),
            flow: FlowV::Go,
        }
    } else if i < d.events.len() {
        enter(d, i + 1, Some(tag), rest, known, sink)
    } else {
        Ran { next: i, sink, flow: FlowV::Go }
    }
}

/// The bytes of the document from before the event `i` to before the event `j`.
pub open spec fn fragment(d: DocV, i: int, j: int) -> Seq<u8> {
    d.bytes.subrange(pos_at(d.events, i) as int, pos_at(d.events, j) as int)
}

/// What a step does with a matching element whose start tag is the event `i`;
/// the element is the `count`-th match.
pub open spec fn start_hit(
    d: DocV,
    i: int,
    tag: TagV,
    steps: Seq<StepV>,
    count: nat,
    known: ReadingsV,
    sink: SinkV,
) -> Ran
    decreases steps, d.events.len() - i, 1int,
    when steps.len() > 0
{
    let rest = steps.subrange(1, steps.len() as int);
    let passed_over = Ran { next: after(d.events, i, tag), sink, flow: FlowV::Go };
    match steps[0] {
        StepV::Child { name, index, .. } => match index {
            IndexV::Auto => if rest.len() > 0 && count > 1 {
                Ran { next: i + 1, sink, flow: FlowV::Ambiguous(name.source()) }
            } else {
                descend(d, i, tag, rest, known, sink)
            },
            IndexV::Each => descend(d, i, tag, rest, known, sink),
            IndexV::Nth(n) => if count == n + 1 {
                let r = descend(d, i, tag, rest, known, sink);
                Ran { flow: done_if(true, r.flow), ..r }
            } else {
                passed_over
            },
            IndexV::Count => passed_over,
            IndexV::FilterFirst(_) => filter_hit(d, i, tag, steps, known, sink),
            IndexV::FilterAll(_) => filter_hit(d, i, tag, steps, known, sink),
        },
        _ => passed_over,
    }
}

/// The filter of a step, if it has one.
pub open spec fn filter_of(step: StepV) -> Option<FilterV> {
    match step {
        StepV::Child { index: IndexV::FilterFirst(filter), .. } => Some(filter),
        StepV::Child { index: IndexV::FilterAll(filter), .. } => Some(filter),
        _ => None,
    }
}

/// Whether a step looks for the first element that passes its filter.
pub open spec fn wants_first(step: StepV) -> bool {
    step matches StepV::Child { index: IndexV::FilterFirst(_), .. }
}

/// What a step with a filter does with a matching element whose start tag is
/// the event `i`. A predicate on an attribute is decided by the tag; any other
/// is decided by the whole element. The search for the first element is over
/// once a predicate holds.
pub open spec fn filter_hit(
    d: DocV,
    i: int,
    tag: TagV,
    steps: Seq<StepV>,
    known: ReadingsV,
    sink: SinkV,
) -> Ran
    decreases steps, d.events.len() - i, 0int,
    when steps.len() > 0
{
    let rest = steps.subrange(1, steps.len() as int);
    let first = wants_first(steps[0]);
    let j = after(d.events, i, tag);
    match filter_of(steps[0]) {
        Some(filter) => match filter.attr_only {
            Some(name) => {
                let (pass, asked) = attr_test(tag, name, filter, known);
                let told = sink.ask(asked);
                if pass {
                    let r = descend(d, i, tag, rest, known, told);
                    Ran { flow: done_if(first, r.flow), ..r }
                } else {
                    Ran { next: j, sink: told, flow: FlowV::Go }
                }
            },
            None => {
                let bytes = fragment(d, i, j);
                let t = filter_test(bytes, filter, known, sink);
                if t.flow is Go && t.pass {
                    let r = within(bytes, place_at(d, i), rest, known, t.sink);
                    Ran { next: j, sink: r.sink, flow: done_if(first, r.flow) }
                } else {
                    Ran { next: j, sink: t.sink, flow: t.flow }
                }
            },
        },
        None => Ran { next: j, sink, flow: FlowV::Go },
    }
}

/// What a step does with a matching empty element at a place.
pub open spec fn empty_hit(
    tag: TagV,
    place: nat,
    steps: Seq<StepV>,
    count: nat,
    known: ReadingsV,
    sink: SinkV,
) -> Out
    decreases steps, 0int, 0int,
    when steps.len() > 0
{
    let rest = steps.subrange(1, steps.len() as int);
    let passed_over = Out { sink, flow: FlowV::Go };
    match steps[0] {
        StepV::Child { name, index, .. } => match index {
            IndexV::Auto => if rest.len() > 0 && count > 1 {
                Out { sink, flow: FlowV::Ambiguous(name.source()) }
            } else {
                Out { sink: in_empty(tag, place, rest, sink), flow: FlowV::Go }
            },
            IndexV::Each => Out { sink: in_empty(tag, place, rest, sink), flow: FlowV::Go },
            IndexV::Nth(n) => if count == n + 1 {
                Out { sink: in_empty(tag, place, rest, sink), flow: FlowV::Done }
            } else {
                passed_over
            },
            IndexV::Count => passed_over,
            _ => match filter_of(steps[0]) {
                Some(filter) => {
                    let bytes = empty_element(tag);
                    let t = filter_test(bytes, filter, known, sink);
                    if t.flow is Go && t.pass {
                        Out {
                            sink: in_empty(tag, place, rest, t.sink),
                            flow: done_if(wants_first(steps[0]), FlowV::Go),
                        }
                    } else {
                        Out { sink: t.sink, flow: t.flow }
                    }
                },
                None => passed_over,
            },
        },
        _ => passed_over,
    }
}

/// What steps select inside the first element of a fragment, which stands at
/// the offset `base`; without steps, the fragment itself.
pub open spec fn within(
    bytes: Seq<u8>,
    base: nat,
    steps: Seq<StepV>,
    known: ReadingsV,
    sink: SinkV,
) -> Out
    decreases steps, doc_of(bytes).events.len() + 1, 0int,
{
    let d = doc_at(bytes, base);
    if steps.len() == 0 {
        Out { sink: sink.push(base, ItemV::Element(bytes)), flow: FlowV::Go }
    } else {
        match first_tag(d.events, 0) {
            Some(k) => if 0 <= k < d.events.len() {
                match d.events[k].event {
                    EventV::Start(tag) => {
                        let r = enter(d, k + 1, Some(tag), steps, known, sink);
                        Out { sink: r.sink, flow: r.flow }
                    },
                    EventV::Empty(tag) => Out {
                        sink: in_empty(tag, place_at(d, k), steps, sink),
                        flow: FlowV::Go,
                    },
                    _ => Out { sink, flow: FlowV::Go },
                }
            } else {
                Out { sink, flow: FlowV::Go }
            },
            None => Out { sink, flow: FlowV::Go },
        }
    }
}

/// Whether a candidate element passes a filter. A predicate path of one bare
/// name looks at the first child of that name; any other is evaluated inside
/// the candidate, and its first result is compared. Without a value to compare
/// a candidate does not pass.
pub open spec fn filter_test(bytes: Seq<u8>, filter: FilterV, known: ReadingsV, sink: SinkV) -> Tested
    decreases filter.path, doc_of(bytes).events.len() + 2, 0int,
{
    match simple_child(filter) {
        Some(name) => {
            let (pass, asked) = child_test(bytes, name, filter, known);
            Tested { pass, sink: sink.ask(asked), flow: FlowV::Go }
        },
        None => {
            let r = within(
                bytes,
                0,
                filter.path,
                known,
                SinkV { items: Seq::empty(), asked: sink.asked },
            );
            let told = SinkV { items: sink.items, asked: r.sink.asked };
            if r.flow is Go && r.sink.items.len() > 0 {
                let text = text_or_empty(text_of(r.sink.items[0].item));
                let (pass, asked) = compare(text, filter.op, filter.value, known);
                Tested { pass, sink: told.ask(asked), flow: FlowV::Go }
            } else {
                Tested { pass: false, sink: told, flow: r.flow }
            }
        },
    }
}

/// Whether the first child with a matching name passes a comparison.
pub open spec fn child_test(bytes: Seq<u8>, name: MatcherV, filter: FilterV, known: ReadingsV) -> (
    bool,
    Seq<Seq<char>>,
) {
    match child_text(doc_of(bytes).events, 0, false, name) {
        Some(text) => compare(text_or_empty(text), filter.op, filter.value, known),
        None => (false, Seq::empty()),
    }
}

} // verus!
