//! What holds of selections in every document.

use vstd::prelude::*;

use crate::engine::{open_names, well_formed};
use crate::number::ReadingsV;
use crate::path::{FilterV, IndexV, StepV};
use crate::semantics::{
    after, at_any_depth, attr_test, child_test, closed_by_name, closes, descend, done_if, empty_hit,
    enter, filter_hit, filter_of, filter_test, finish, first_tag, fragment, hit, hits, in_empty,
    nothing, onward, scan, scope_end, scope_text, simple_child, start_hit, text_of, tidy,
    wants_first, within, FlowV, FoundV, ItemV, Out, Ran, SinkV, Tested,
};
use crate::text::{decimal, text_or_empty};
use crate::wildcard::MatcherV;
use crate::xml::{
    attr_value, doc_at, doc_of, empty_element, place_at, skipped, DocV, EventAt, EventV, TagV,
};

verus! {

/// An element that is open at the event `i`, with the elements `inner` open inside
/// it, is closed by an end tag of its name, where all end tags carry the names of
/// what they close and nothing stays open.
proof fn lemma_open_closes(
    events: Seq<EventAt>,
    i: int,
    outer: Seq<Seq<u8>>,
    name: Seq<u8>,
    inner: Seq<Seq<u8>>,
)
    requires
        0 <= i <= events.len(),
        open_names(events, i) == Some(outer.push(name) + inner),
        open_names(events, events.len() as int) == Some(Seq::<Seq<u8>>::empty()),
    ensures
        closes(events, i, inner.len() + 1),
        events[scope_end(events, i, inner.len() + 1) - 1].event == EventV::End(name),
    decreases events.len() - i,
{
    let open = outer.push(name) + inner;
    if i < events.len() {
        lemma_open_before(events, i + 1);
        match events[i].event {
            EventV::Start(tag) => {
                assert(open.push(tag.name()) =~= outer.push(name) + inner.push(tag.name()));
                lemma_open_closes(events, i + 1, outer, name, inner.push(tag.name()));
            },
            EventV::End(end) => {
                assert(open_names(events, i + 1) is Some);
                if inner.len() > 0 {
                    assert(open.drop_last() =~= outer.push(name) + inner.drop_last());
                    lemma_open_closes(events, i + 1, outer, name, inner.drop_last());
                } else {
                    assert(open.last() == name);
                }
            },
            _ => {
                lemma_open_closes(events, i + 1, outer, name, inner);
            },
        }
    } else {
        assert(open.len() > 0);
    }
}

/// Where the end tags fit up to the end, they fit up to every place before.
pub(crate) proof fn lemma_open_before(events: Seq<EventAt>, i: int)
    requires
        i <= events.len(),
        open_names(events, events.len() as int) is Some,
    ensures
        open_names(events, i) is Some,
    decreases events.len() - i,
{
    if i < events.len() {
        lemma_open_before(events, i + 1);
    }
}

/// In a well-formed document every start tag is closed by an end tag of its name:
/// it is tidy.
pub proof fn law_well_formed_is_tidy(events: Seq<EventAt>)
    requires
        well_formed(events),
    ensures
        tidy(events),
{
    assert forall|i: int| 0 <= i < events.len() implies match #[trigger] events[i].event {
        EventV::Start(tag) => closed_by_name(events, i, tag),
        _ => true,
    } by {
        if let EventV::Start(tag) = events[i].event {
            lemma_open_before(events, i);
            lemma_open_before(events, i + 1);
            let outer = open_names(events, i).unwrap();
            let none = Seq::<Seq<u8>>::empty();
            assert(outer.push(tag.name()) + none =~= outer.push(tag.name()));
            lemma_open_closes(events, i + 1, outer, tag.name(), none);
        }
    }
}

/// The end of a scope lies at or behind the event `i`, and within the document.
pub(crate) proof fn lemma_scope_end(events: Seq<EventAt>, i: int, depth: nat)
    requires
        0 <= i <= events.len(),
    ensures
        i <= scope_end(events, i, depth) <= events.len(),
        i < events.len() ==> i < scope_end(events, i, depth),
    decreases events.len() - i,
{
    if i < events.len() {
        lemma_scope_end(events, i + 1, depth + 1);
        lemma_scope_end(events, i + 1, depth);
        if depth > 1 {
            lemma_scope_end(events, i + 1, (depth - 1) as nat);
        }
    }
}

/// Leaving several scopes is leaving all but the last, and then the last.
pub(crate) proof fn lemma_scope_end_out(events: Seq<EventAt>, i: int, depth: nat)
    requires
        0 <= i <= events.len(),
        depth >= 1,
    ensures
        scope_end(events, i, depth + 1) == scope_end(events, scope_end(events, i, depth), 1),
        closes(events, i, depth + 1) == (closes(events, i, depth) && closes(
            events,
            scope_end(events, i, depth),
            1,
        )),
    decreases events.len() - i,
{
    if i < events.len() {
        match events[i].event {
            EventV::Start(_) => lemma_scope_end_out(events, i + 1, depth + 1),
            EventV::End(_) => {
                if depth > 1 {
                    lemma_scope_end_out(events, i + 1, (depth - 1) as nat);
                }
            },
            _ => lemma_scope_end_out(events, i + 1, depth),
        }
    }
}

/// Skipping an element passes over the balanced content of a scope without
/// noticing it.
proof fn lemma_skip_content(events: Seq<EventAt>, i: int, name: Seq<u8>, depth: nat)
    requires
        tidy(events),
        0 <= i < events.len(),
        closes(events, i, 1),
    ensures
        skipped(events.skip(i), name, depth) == scope_end(events, i, 1) - 1 - i + skipped(
            events.skip(scope_end(events, i, 1) - 1),
            name,
            depth,
        ),
    decreases events.len() - i,
{
    let e = scope_end(events, i, 1);
    let here = events.skip(i);
    assert(here[0] == events[i]);
    assert(here.skip(1) =~= events.skip(i + 1));
    match events[i].event {
        EventV::End(_) => {},
        EventV::Start(tag) => {
            assert(closed_by_name(events, i, tag));
            let j = scope_end(events, i + 1, 1);
            lemma_scope_end(events, i + 1, 1);
            lemma_scope_end_out(events, i + 1, 1);
            let inner = if tag.name() == name {
                depth + 1
            } else {
                depth
            };
            lemma_skip_content(events, i + 1, name, inner);
            let end = events.skip(j - 1);
            assert(end[0] == events[j - 1]);
            assert(end.skip(1) =~= events.skip(j));
            assert(skipped(end, name, inner) == 1 + skipped(events.skip(j), name, depth));
            lemma_skip_content(events, j, name, depth);
        },
        _ => {
            assert(events[i].event !is Error);
            assert(closes(events, i + 1, 1));
            lemma_skip_content(events, i + 1, name, depth);
        },
    }
}

/// In a tidy document, skipping an element leads to where its scope ends.
pub proof fn law_skipping_leaves_the_element(events: Seq<EventAt>, i: int, tag: TagV)
    requires
        tidy(events),
        0 <= i < events.len(),
        events[i].event == EventV::Start(tag),
    ensures
        after(events, i, tag) == scope_end(events, i + 1, 1),
        i + 1 < after(events, i, tag) <= events.len(),
{
    assert(closed_by_name(events, i, tag));
    let j = scope_end(events, i + 1, 1);
    lemma_scope_end(events, i + 1, 1);
    lemma_skip_content(events, i + 1, tag.name(), 0);
    let end = events.skip(j - 1);
    assert(end[0] == events[j - 1]);
}

/// In a tidy document, whatever steps select inside an element, the pass goes
/// on where the element ends.
pub(crate) proof fn lemma_enter_next(
    d: DocV,
    i: int,
    current: Option<TagV>,
    steps: Seq<StepV>,
    known: ReadingsV,
    sink: SinkV,
)
    requires
        tidy(d.events),
        0 <= i <= d.events.len(),
        steps.len() > 0,
        current is Some || steps[0] is Child,
    ensures
        enter(d, i, current, steps, known, sink).flow is Go ==> enter(
            d,
            i,
            current,
            steps,
            known,
            sink,
        ).next == scope_end(d.events, i, 1),
    decreases steps.len(), d.events.len() - i, 3int,
{
    if steps[0] is Child {
        lemma_scan_next(d, i, steps, 0, known, sink);
    }
}

proof fn lemma_scan_next(
    d: DocV,
    i: int,
    steps: Seq<StepV>,
    count: nat,
    known: ReadingsV,
    sink: SinkV,
)
    requires
        tidy(d.events),
        0 <= i <= d.events.len(),
        steps.len() > 0,
        steps[0] is Child,
    ensures
        scan(d, i, steps, count, known, sink).flow is Go ==> scan(
            d,
            i,
            steps,
            count,
            known,
            sink,
        ).next == scope_end(d.events, i, 1),
    decreases steps.len(), d.events.len() - i, 2int,
{
    if i < d.events.len() {
        assert(d.events[i].event !is Error);
        match (steps[0], d.events[i].event) {
            (StepV::Child { name, descendant, .. }, EventV::Start(tag)) => {
                let j = scope_end(d.events, i + 1, 1);
                law_skipping_leaves_the_element(d.events, i, tag);
                lemma_scope_end_out(d.events, i + 1, 1);
                if hits(name, tag) {
                    let r = hit(d, i, tag, steps, count + 1, known, sink);
                    lemma_hit_next(d, i, tag, steps, count + 1, known, sink);
                    if r.flow is Go {
                        lemma_scan_next(d, j, steps, count + 1, known, r.sink);
                    }
                } else if descendant {
                    let r = enter(d, i + 1, Some(tag), steps, known, sink);
                    lemma_enter_next(d, i + 1, Some(tag), steps, known, sink);
                    if r.flow is Go {
                        lemma_scan_next(d, j, steps, count, known, r.sink);
                    }
                } else {
                    lemma_scan_next(d, j, steps, count, known, sink);
                }
            },
            (StepV::Child { name, .. }, EventV::Empty(tag)) => {
                if hits(name, tag) {
                    let r = empty_hit(tag, place_at(d, i), steps, count + 1, known, sink);
                    if r.flow is Go {
                        lemma_scan_next(d, i + 1, steps, count + 1, known, r.sink);
                    }
                } else {
                    lemma_scan_next(d, i + 1, steps, count, known, sink);
                }
            },
            (_, EventV::End(_)) => {},
            _ => {
                lemma_scan_next(d, i + 1, steps, count, known, sink);
            },
        }
    }
}

/// A part of a pass never ends because of a selector in a scope around it.
pub(crate) proof fn lemma_scan_flow(
    d: DocV,
    i: int,
    steps: Seq<StepV>,
    count: nat,
    known: ReadingsV,
    sink: SinkV,
)
    requires
        steps.len() > 0,
    ensures
        scan(d, i, steps, count, known, sink).flow !is Done,
    decreases d.events.len() - i,
{
    if let StepV::Child { name, descendant, .. } = steps[0] {
        if 0 <= i < d.events.len() {
            match d.events[i].event {
                EventV::Start(tag) => {
                    if hits(name, tag) {
                        let r = hit(d, i, tag, steps, count + 1, known, sink);
                        let next = onward(d.events, i, r.next);
                        lemma_scan_flow(d, next, steps, count + 1, known, r.sink);
                    } else if descendant {
                        let r = enter(d, i + 1, Some(tag), steps, known, sink);
                        lemma_scan_flow(d, i + 1, steps, 0, known, sink);
                        let next = onward(d.events, i, r.next);
                        lemma_scan_flow(d, next, steps, count, known, r.sink);
                    } else {
                        lemma_scan_flow(
                            d,
                            after(d.events, i, tag),
                            steps,
                            count,
                            known,
                            sink,
                        );
                    }
                },
                EventV::Empty(tag) => {
                    if hits(name, tag) {
                        let r = empty_hit(tag, place_at(d, i), steps, count + 1, known, sink);
                        lemma_scan_flow(d, i + 1, steps, count + 1, known, r.sink);
                    } else {
                        lemma_scan_flow(d, i + 1, steps, count, known, sink);
                    }
                },
                EventV::End(_) => {},
                EventV::Error => {},
                _ => lemma_scan_flow(d, i + 1, steps, count, known, sink),
            }
        }
    }
}

pub(crate) proof fn lemma_enter_flow(
    d: DocV,
    i: int,
    current: Option<TagV>,
    steps: Seq<StepV>,
    known: ReadingsV,
    sink: SinkV,
)
    ensures
        enter(d, i, current, steps, known, sink).flow !is Done,
{
    if steps.len() > 0 {
        lemma_scan_flow(d, i, steps, 0, known, sink);
    }
}

pub(crate) proof fn lemma_descend_flow(
    d: DocV,
    i: int,
    tag: TagV,
    rest: Seq<StepV>,
    known: ReadingsV,
    sink: SinkV,
)
    ensures
        descend(d, i, tag, rest, known, sink).flow !is Done,
{
    lemma_enter_flow(d, i + 1, Some(tag), rest, known, sink);
}

pub(crate) proof fn lemma_hit_next(
    d: DocV,
    i: int,
    tag: TagV,
    steps: Seq<StepV>,
    count: nat,
    known: ReadingsV,
    sink: SinkV,
)
    requires
        tidy(d.events),
        0 <= i < d.events.len(),
        d.events[i].event == EventV::Start(tag),
        steps.len() > 0,
    ensures
        hit(d, i, tag, steps, count, known, sink).flow !is Ambiguous ==> hit(
            d,
            i,
            tag,
            steps,
            count,
            known,
            sink,
        ).next == scope_end(d.events, i + 1, 1),
    decreases steps.len(), d.events.len() - i, 1int,
{
    lemma_start_next(d, i, tag, steps, count, known, sink);
}

pub(crate) proof fn lemma_start_next(
    d: DocV,
    i: int,
    tag: TagV,
    steps: Seq<StepV>,
    count: nat,
    known: ReadingsV,
    sink: SinkV,
)
    requires
        tidy(d.events),
        0 <= i < d.events.len(),
        d.events[i].event == EventV::Start(tag),
        steps.len() > 0,
    ensures
        start_hit(d, i, tag, steps, count, known, sink).flow !is Ambiguous ==> start_hit(
            d,
            i,
            tag,
            steps,
            count,
            known,
            sink,
        ).next == scope_end(d.events, i + 1, 1),
    decreases steps.len(), d.events.len() - i, 0int,
{
    law_skipping_leaves_the_element(d.events, i, tag);
    let rest = steps.subrange(1, steps.len() as int);
    lemma_descend_next(d, i, tag, rest, known, sink);
    if let Some(filter) = filter_of(steps[0]) {
        if let Some(name) = filter.attr_only {
            let told = sink.ask(attr_test(tag, name, filter, known).1);
            lemma_descend_next(d, i, tag, rest, known, told);
        }
    }
}

proof fn lemma_descend_next(
    d: DocV,
    i: int,
    tag: TagV,
    rest: Seq<StepV>,
    known: ReadingsV,
    sink: SinkV,
)
    requires
        tidy(d.events),
        0 <= i < d.events.len(),
        d.events[i].event == EventV::Start(tag),
    ensures
        descend(d, i, tag, rest, known, sink).flow !is Ambiguous ==> descend(
            d,
            i,
            tag,
            rest,
            known,
            sink,
        ).next == scope_end(d.events, i + 1, 1),
    decreases rest.len(), d.events.len() - i, 4int,
{
    law_skipping_leaves_the_element(d.events, i, tag);
    lemma_descend_flow(d, i, tag, rest, known, sink);
    if rest.len() > 0 {
        lemma_enter_next(d, i + 1, Some(tag), rest, known, sink);
    }
}

/// What is collected first, and then.
pub open spec fn plus(a: SinkV, b: SinkV) -> SinkV {
    SinkV { items: a.items + b.items, asked: a.asked + b.asked }
}

pub(crate) proof fn lemma_plus(a: SinkV, b: SinkV, c: SinkV)
    ensures
        plus(plus(a, b), c) == plus(a, plus(b, c)),
        plus(a, nothing()) == a,
        plus(nothing(), a) == a,
{
    assert(plus(plus(a, b), c).items =~= plus(a, plus(b, c)).items);
    assert(plus(plus(a, b), c).asked =~= plus(a, plus(b, c)).asked);
    assert(plus(a, nothing()).items =~= a.items);
    assert(plus(a, nothing()).asked =~= a.asked);
    assert(plus(nothing(), a).items =~= a.items);
    assert(plus(nothing(), a).asked =~= a.asked);
}

pub(crate) proof fn lemma_plus_push(a: SinkV, place: nat, item: ItemV)
    ensures
        a.push(place, item) == plus(a, nothing().push(place, item)),
{
    assert(a.push(place, item).items =~= plus(a, nothing().push(place, item)).items);
    assert(a.push(place, item).asked =~= plus(a, nothing().push(place, item)).asked);
}

pub(crate) proof fn lemma_plus_ask(a: SinkV, texts: Seq<Seq<char>>)
    ensures
        a.ask(texts) == plus(a, nothing().ask(texts)),
{
    assert(a.ask(texts).items =~= plus(a, nothing().ask(texts)).items);
    assert(a.ask(texts).asked =~= plus(a, nothing().ask(texts)).asked);
}

/// A part of a pass that comes after something was collected.
pub open spec fn ran_after(before: SinkV, r: Ran) -> Ran {
    Ran { next: r.next, sink: plus(before, r.sink), flow: r.flow }
}

/// A part of a pass that comes after something was collected.
pub open spec fn out_after(before: SinkV, r: Out) -> Out {
    Out { sink: plus(before, r.sink), flow: r.flow }
}

/// What steps select does not depend on what was collected before; it is
/// added behind it.
pub proof fn law_selection_adds(
    d: DocV,
    i: int,
    current: Option<TagV>,
    steps: Seq<StepV>,
    known: ReadingsV,
    sink: SinkV,
)
    ensures
        enter(d, i, current, steps, known, sink) == ran_after(
            sink,
            enter(d, i, current, steps, known, nothing()),
        ),
    decreases steps, d.events.len() - i, 4int,
{
    lemma_plus(sink, nothing(), nothing());
    if steps.len() == 0 {
        lemma_plus_push(sink, d.base, ItemV::Scalar(Seq::empty()));
    } else {
        match steps[0] {
            StepV::Attribute(name) => {
                if let Some(tag) = current {
                    if let Some(value) = attr_value(tag, name) {
                        lemma_plus_push(sink, place_at(d, i - 1), ItemV::Scalar(value));
                    }
                }
            },
            StepV::Text => {
                lemma_plus_push(sink, d.base, ItemV::Scalar(Seq::empty()));
                lemma_plus_push(
                    sink,
                    place_at(d, i - 1),
                    ItemV::Scalar(scope_text(d.events, i, 1)),
                );
            },
            StepV::Child { .. } => {
                lemma_scan_adds(d, i, steps, 0, known, sink);
            },
        }
    }
}

pub(crate) proof fn lemma_scan_adds(
    d: DocV,
    i: int,
    steps: Seq<StepV>,
    count: nat,
    known: ReadingsV,
    sink: SinkV,
)
    requires
        steps.len() > 0,
    ensures
        scan(d, i, steps, count, known, sink) == ran_after(
            sink,
            scan(d, i, steps, count, known, nothing()),
        ),
    decreases steps, d.events.len() - i, 3int,
{
    lemma_plus(sink, nothing(), nothing());
    lemma_plus_push(sink, place_at(d, i), ItemV::Scalar(decimal(count)));
    if let StepV::Child { name, index, descendant } = steps[0] {
        if 0 <= i < d.events.len() {
            match d.events[i].event {
                EventV::Start(tag) => if hits(name, tag) {
                    lemma_hit_adds(d, i, tag, steps, count + 1, known, sink);
                    let r = hit(d, i, tag, steps, count + 1, known, nothing());
                    if r.flow is Go {
                        let j = onward(d.events, i, r.next);
                        let then = scan(d, j, steps, count + 1, known, nothing());
                        lemma_scan_adds(d, j, steps, count + 1, known, plus(sink, r.sink));
                        lemma_scan_adds(d, j, steps, count + 1, known, r.sink);
                        lemma_plus(sink, r.sink, then.sink);
                    }
                } else if descendant {
                    law_selection_adds(d, i + 1, Some(tag), steps, known, sink);
                    let r = enter(d, i + 1, Some(tag), steps, known, nothing());
                    if r.flow is Go {
                        let j = onward(d.events, i, r.next);
                        let then = scan(d, j, steps, count, known, nothing());
                        lemma_scan_adds(d, j, steps, count, known, plus(sink, r.sink));
                        lemma_scan_adds(d, j, steps, count, known, r.sink);
                        lemma_plus(sink, r.sink, then.sink);
                    }
                } else {
                    lemma_scan_adds(d, after(d.events, i, tag), steps, count, known, sink);
                },
                EventV::Empty(tag) => if hits(name, tag) {
                    lemma_empty_adds(tag, place_at(d, i), steps, count + 1, known, sink);
                    let r = empty_hit(tag, place_at(d, i), steps, count + 1, known, nothing());
                    if r.flow is Go {
                        let then = scan(d, i + 1, steps, count + 1, known, nothing());
                        lemma_scan_adds(d, i + 1, steps, count + 1, known, plus(sink, r.sink));
                        lemma_scan_adds(d, i + 1, steps, count + 1, known, r.sink);
                        lemma_plus(sink, r.sink, then.sink);
                    }
                } else {
                    lemma_scan_adds(d, i + 1, steps, count, known, sink);
                },
                EventV::End(_) => {},
                EventV::Error => {},
                _ => {
                    lemma_scan_adds(d, i + 1, steps, count, known, sink);
                },
            }
        }
    }
}

pub(crate) proof fn lemma_descend_adds(
    d: DocV,
    i: int,
    tag: TagV,
    rest: Seq<StepV>,
    known: ReadingsV,
    sink: SinkV,
)
    ensures
        descend(d, i, tag, rest, known, sink) == ran_after(
            sink,
            descend(d, i, tag, rest, known, nothing()),
        ),
    decreases rest, d.events.len() - i, 5int,
{
    lemma_plus(sink, nothing(), nothing());
    if rest.len() == 0 {
        let item = ItemV::Element(fragment(d, i, after(d.events, i, tag)));
        lemma_plus_push(sink, place_at(d, i), item);
    } else if i < d.events.len() {
        law_selection_adds(d, i + 1, Some(tag), rest, known, sink);
    }
}

pub(crate) proof fn lemma_hit_adds(
    d: DocV,
    i: int,
    tag: TagV,
    steps: Seq<StepV>,
    count: nat,
    known: ReadingsV,
    sink: SinkV,
)
    requires
        steps.len() > 0,
    ensures
        hit(d, i, tag, steps, count, known, sink) == ran_after(
            sink,
            hit(d, i, tag, steps, count, known, nothing()),
        ),
    decreases steps, d.events.len() - i, 2int,
{
    lemma_start_adds(d, i, tag, steps, count, known, sink);
    let r = start_hit(d, i, tag, steps, count, known, nothing());
    if at_any_depth(steps[0]) && i < d.events.len() {
        let then = enter(d, i + 1, Some(tag), steps, known, nothing());
        law_selection_adds(d, i + 1, Some(tag), steps, known, plus(sink, r.sink));
        law_selection_adds(d, i + 1, Some(tag), steps, known, r.sink);
        lemma_plus(sink, r.sink, then.sink);
    }
}

pub(crate) proof fn lemma_start_adds(
    d: DocV,
    i: int,
    tag: TagV,
    steps: Seq<StepV>,
    count: nat,
    known: ReadingsV,
    sink: SinkV,
)
    requires
        steps.len() > 0,
    ensures
        start_hit(d, i, tag, steps, count, known, sink) == ran_after(
            sink,
            start_hit(d, i, tag, steps, count, known, nothing()),
        ),
    decreases steps, d.events.len() - i, 1int,
{
    lemma_plus(sink, nothing(), nothing());
    let rest = steps.subrange(1, steps.len() as int);
    lemma_descend_adds(d, i, tag, rest, known, sink);
    if filter_of(steps[0]) is Some {
        lemma_filter_adds(d, i, tag, steps, known, sink);
    }
}

pub(crate) proof fn lemma_filter_adds(
    d: DocV,
    i: int,
    tag: TagV,
    steps: Seq<StepV>,
    known: ReadingsV,
    sink: SinkV,
)
    requires
        steps.len() > 0,
        filter_of(steps[0]) is Some,
    ensures
        filter_hit(d, i, tag, steps, known, sink) == ran_after(
            sink,
            filter_hit(d, i, tag, steps, known, nothing()),
        ),
    decreases steps, d.events.len() - i, 0int,
{
    lemma_plus(sink, nothing(), nothing());
    let rest = steps.subrange(1, steps.len() as int);
    let filter = filter_of(steps[0])->0;
    match filter.attr_only {
        Some(name) => {
            let asked = attr_test(tag, name, filter, known).1;
            let told = nothing().ask(asked);
            lemma_plus_ask(sink, asked);
            let then = descend(d, i, tag, rest, known, nothing());
            lemma_descend_adds(d, i, tag, rest, known, sink.ask(asked));
            lemma_descend_adds(d, i, tag, rest, known, told);
            lemma_plus(sink, told, then.sink);
        },
        None => {
            let bytes = fragment(d, i, after(d.events, i, tag));
            lemma_test_adds(bytes, filter, known, sink);
            let told = filter_test(bytes, filter, known, nothing()).sink;
            let base = place_at(d, i);
            let then = within(bytes, base, rest, known, nothing());
            lemma_within_adds(bytes, base, rest, known, plus(sink, told));
            lemma_within_adds(bytes, base, rest, known, told);
            lemma_plus(sink, told, then.sink);
        },
    }
}

pub(crate) proof fn lemma_empty_adds(
    tag: TagV,
    place: nat,
    steps: Seq<StepV>,
    count: nat,
    known: ReadingsV,
    sink: SinkV,
)
    requires
        steps.len() > 0,
    ensures
        empty_hit(tag, place, steps, count, known, sink) == out_after(
            sink,
            empty_hit(tag, place, steps, count, known, nothing()),
        ),
    decreases steps, 0int, 0int,
{
    lemma_plus(sink, nothing(), nothing());
    let rest = steps.subrange(1, steps.len() as int);
    lemma_in_empty_adds(tag, place, rest, sink);
    if let Some(filter) = filter_of(steps[0]) {
        let bytes = empty_element(tag);
        lemma_test_adds(bytes, filter, known, sink);
        let told = filter_test(bytes, filter, known, nothing()).sink;
        let then = in_empty(tag, place, rest, nothing());
        lemma_in_empty_adds(tag, place, rest, plus(sink, told));
        lemma_in_empty_adds(tag, place, rest, told);
        lemma_plus(sink, told, then);
    }
}

pub(crate) proof fn lemma_in_empty_adds(tag: TagV, place: nat, steps: Seq<StepV>, sink: SinkV)
    ensures
        in_empty(tag, place, steps, sink) == plus(sink, in_empty(tag, place, steps, nothing())),
{
    lemma_plus(sink, nothing(), nothing());
    if steps.len() == 0 {
        lemma_plus_push(sink, place, ItemV::Element(empty_element(tag)));
    } else {
        match steps[0] {
            StepV::Attribute(name) => {
                if let Some(value) = attr_value(tag, name) {
                    lemma_plus_push(sink, place, ItemV::Scalar(value));
                }
            },
            StepV::Text => {
                lemma_plus_push(sink, place, ItemV::Scalar(Seq::empty()));
            },
            StepV::Child { .. } => {},
        }
    }
}

pub(crate) proof fn lemma_within_adds(
    bytes: Seq<u8>,
    base: nat,
    steps: Seq<StepV>,
    known: ReadingsV,
    sink: SinkV,
)
    ensures
        within(bytes, base, steps, known, sink) == out_after(
            sink,
            within(bytes, base, steps, known, nothing()),
        ),
    decreases steps, doc_of(bytes).events.len() + 1, 0int,
{
    lemma_plus(sink, nothing(), nothing());
    let d = doc_at(bytes, base);
    if steps.len() == 0 {
        lemma_plus_push(sink, base, ItemV::Element(bytes));
    } else {
        if let Some(k) = first_tag(d.events, 0) {
            if 0 <= k < d.events.len() {
                match d.events[k].event {
                    EventV::Start(tag) => {
                        law_selection_adds(d, k + 1, Some(tag), steps, known, sink);
                    },
                    EventV::Empty(tag) => {
                        lemma_in_empty_adds(tag, place_at(d, k), steps, sink);
                    },
                    _ => {},
                }
            }
        }
    }
}

pub(crate) proof fn lemma_test_adds(bytes: Seq<u8>, filter: FilterV, known: ReadingsV, sink: SinkV)
    ensures
        filter_test(bytes, filter, known, sink).pass == filter_test(
            bytes,
            filter,
            known,
            nothing(),
        ).pass,
        filter_test(bytes, filter, known, sink).flow == filter_test(
            bytes,
            filter,
            known,
            nothing(),
        ).flow,
        filter_test(bytes, filter, known, sink).sink == plus(
            sink,
            filter_test(bytes, filter, known, nothing()).sink,
        ),
    decreases filter.path, doc_of(bytes).events.len() + 2, 0int,
{
    lemma_plus(sink, nothing(), nothing());
    match simple_child(filter) {
        Some(name) => {
            lemma_plus_ask(sink, child_test(bytes, name, filter, known).1);
        },
        None => {
            let fresh = SinkV { items: Seq::empty(), asked: sink.asked };
            assert(fresh.items =~= Seq::empty());
            lemma_within_adds(bytes, 0, filter.path, known, fresh);
            let r = within(bytes, 0, filter.path, known, nothing());
            assert(SinkV { items: Seq::empty(), asked: nothing().asked } == nothing());
            assert(fresh.items + r.sink.items =~= r.sink.items);
            let text = text_or_empty(text_of(r.sink.items[0].item));
            let asked = crate::semantics::compare(text, filter.op, filter.value, known).1;
            let told = filter_test(bytes, filter, known, nothing()).sink;
            assert(plus(sink, told).items =~= sink.items);
            assert(plus(sink, told).asked =~= filter_test(bytes, filter, known, sink).sink.asked);
        },
    }
}

/// The elements among the siblings from the event `i` on that a name pattern
/// matches, by the events of their tags.
pub open spec fn siblings(d: DocV, i: int, name: MatcherV) -> Seq<int>
    decreases d.events.len() - i,
{
    if i < 0 || i >= d.events.len() {
        Seq::empty()
    } else {
        match d.events[i].event {
            EventV::Start(tag) => {
                let rest = siblings(d, after(d.events, i, tag), name);
                if hits(name, tag) {
                    seq![i] + rest
                } else {
                    rest
                }
            },
            EventV::Empty(tag) => {
                let rest = siblings(d, i + 1, name);
                if hits(name, tag) {
                    seq![i] + rest
                } else {
                    rest
                }
            },
            EventV::End(_) => Seq::empty(),
            EventV::Error => Seq::empty(),
            _ => siblings(d, i + 1, name),
        }
    }
}

/// Whether the siblings from the event `i` on are read without an error.
pub open spec fn unbroken(d: DocV, i: int) -> bool
    decreases d.events.len() - i,
{
    if i < 0 || i >= d.events.len() {
        true
    } else {
        match d.events[i].event {
            EventV::Start(tag) => unbroken(d, after(d.events, i, tag)),
            EventV::End(_) => true,
            EventV::Error => false,
            _ => unbroken(d, i + 1),
        }
    }
}

/// Where the siblings from the event `i` on end.
pub open spec fn siblings_end(d: DocV, i: int) -> int
    decreases d.events.len() - i,
{
    if i < 0 || i >= d.events.len() {
        i
    } else {
        match d.events[i].event {
            EventV::Start(tag) => siblings_end(d, after(d.events, i, tag)),
            EventV::End(_) => i,
            EventV::Error => i,
            _ => siblings_end(d, i + 1),
        }
    }
}

/// The full bytes of the element whose tag is the event `k`.
pub open spec fn element_bytes(d: DocV, k: int) -> Seq<u8> {
    match d.events[k].event {
        EventV::Start(tag) => fragment(d, k, after(d.events, k, tag)),
        EventV::Empty(tag) => empty_element(tag),
        _ => Seq::empty(),
    }
}

/// The element whose tag is the event `k`, as it is found.
pub open spec fn element_at(d: DocV, k: int) -> FoundV {
    FoundV { place: place_at(d, k), item: ItemV::Element(element_bytes(d, k)) }
}

/// The elements themselves, as they are found.
pub open spec fn elements(d: DocV, ks: Seq<int>) -> Seq<FoundV> {
    Seq::new(ks.len(), |j: int| element_at(d, ks[j]))
}

/// The path of one child step.
pub open spec fn one_step(name: MatcherV, index: IndexV) -> Seq<StepV> {
    seq![StepV::Child { name, index, descendant: false }]
}

/// What a step at the end of a path does with a matching element.
proof fn lemma_terminal_hit(
    d: DocV,
    i: int,
    name: MatcherV,
    index: IndexV,
    count: nat,
    known: ReadingsV,
    sink: SinkV,
)
    requires
        0 <= i < d.events.len(),
    ensures
        ({
            let steps = one_step(name, index);
            let one = sink.push(place_at(d, i), ItemV::Element(element_bytes(d, i)));
            match d.events[i].event {
                EventV::Start(tag) => {
                    let r = hit(d, i, tag, steps, count, known, sink);
                    &&& r.next == after(d.events, i, tag)
                    &&& (index is Auto || index is Each) ==> r.flow is Go && r.sink == one
                    &&& index is Count ==> r.flow is Go && r.sink == sink
                    &&& index matches IndexV::Nth(n) ==> if count == n + 1 {
                        r.flow is Done && r.sink == one
                    } else {
                        r.flow is Go && r.sink == sink
                    }
                },
                EventV::Empty(tag) => {
                    let r = empty_hit(tag, place_at(d, i), steps, count, known, sink);
                    &&& (index is Auto || index is Each) ==> r.flow is Go && r.sink == one
                    &&& index is Count ==> r.flow is Go && r.sink == sink
                    &&& index matches IndexV::Nth(n) ==> if count == n + 1 {
                        r.flow is Done && r.sink == one
                    } else {
                        r.flow is Go && r.sink == sink
                    }
                },
                _ => true,
            }
        }),
{
    let steps = one_step(name, index);
    let rest = steps.subrange(1, 1);
    assert(steps[0] == StepV::Child { name, index, descendant: false });
    assert(rest.len() == 0);
    if let EventV::Start(tag) = d.events[i].event {
        let h = start_hit(d, i, tag, steps, count, known, sink);
        let r = descend(d, i, tag, rest, known, sink);
        assert(r.sink == sink.push(place_at(d, i), ItemV::Element(element_bytes(d, i))));
        if filter_of(steps[0]) is Some {
            lemma_filter_next(d, i, tag, steps, known, sink);
        }
    }
}

proof fn lemma_filter_next(
    d: DocV,
    i: int,
    tag: TagV,
    steps: Seq<StepV>,
    known: ReadingsV,
    sink: SinkV,
)
    requires
        0 <= i < d.events.len(),
        d.events[i].event == EventV::Start(tag),
        steps.len() == 1,
    ensures
        filter_hit(d, i, tag, steps, known, sink).next == after(d.events, i, tag),
{
    let rest = steps.subrange(1, 1);
    assert(rest.len() == 0);
    if let Some(filter) = filter_of(steps[0]) {
        if let Some(name) = filter.attr_only {
            let told = sink.ask(attr_test(tag, name, filter, known).1);
            let r = descend(d, i, tag, rest, known, told);
            assert(r.next == after(d.events, i, tag));
        }
    }
}

/// A bare name at the end of a path selects every match.
pub proof fn law_bare_name_selects_all(
    d: DocV,
    i: int,
    count: nat,
    name: MatcherV,
    index: IndexV,
    known: ReadingsV,
    sink: SinkV,
)
    requires
        index is Auto || index is Each,
    ensures
        ({
            let r = scan(d, i, one_step(name, index), count, known, sink);
            &&& r.flow is Go
            &&& r.sink == plus(
                sink,
                SinkV { items: elements(d, siblings(d, i, name)), asked: Seq::empty() },
            )
        }),
    decreases d.events.len() - i,
{
    let steps = one_step(name, index);
    let rest = steps.subrange(1, 1);
    assert(rest.len() == 0);
    let all = SinkV { items: elements(d, siblings(d, i, name)), asked: Seq::empty() };
    if i < 0 || i >= d.events.len() {
        assert(all.items =~= Seq::empty());
        lemma_plus(sink, nothing(), nothing());
        assert(all == nothing());
    } else {
        lemma_terminal_hit(d, i, name, index, count + 1, known, sink);
        match d.events[i].event {
            EventV::Start(tag) => {
                let j = after(d.events, i, tag);
                if hits(name, tag) {
                    let one = sink.push(place_at(d, i), ItemV::Element(element_bytes(d, i)));
                    law_bare_name_selects_all(d, j, count + 1, name, index, known, one);
                    lemma_one_more(d, i, siblings(d, j, name), sink);
                } else {
                    law_bare_name_selects_all(d, j, count, name, index, known, sink);
                }
            },
            EventV::Empty(tag) => {
                if hits(name, tag) {
                    let one = sink.push(place_at(d, i), ItemV::Element(element_bytes(d, i)));
                    law_bare_name_selects_all(d, i + 1, count + 1, name, index, known, one);
                    lemma_one_more(d, i, siblings(d, i + 1, name), sink);
                } else {
                    law_bare_name_selects_all(d, i + 1, count, name, index, known, sink);
                }
            },
            EventV::End(_) => {
                assert(all.items =~= Seq::empty());
                lemma_plus(sink, nothing(), nothing());
                assert(all == nothing());
            },
            EventV::Error => {
                assert(all.items =~= Seq::empty());
                lemma_plus(sink, nothing(), nothing());
                assert(all == nothing());
            },
            _ => {
                law_bare_name_selects_all(d, i + 1, count, name, index, known, sink);
            },
        }
    }
}

proof fn lemma_one_more(d: DocV, k: int, rest: Seq<int>, sink: SinkV)
    ensures
        plus(
            sink.push(place_at(d, k), ItemV::Element(element_bytes(d, k))),
            SinkV { items: elements(d, rest), asked: Seq::empty() },
        ) == plus(sink, SinkV { items: elements(d, seq![k] + rest), asked: Seq::empty() }),
{
    let a = plus(
        sink.push(place_at(d, k), ItemV::Element(element_bytes(d, k))),
        SinkV { items: elements(d, rest), asked: Seq::empty() },
    );
    let b = plus(sink, SinkV { items: elements(d, seq![k] + rest), asked: Seq::empty() });
    assert(elements(d, seq![k] + rest) =~= seq![element_at(d, k)] + elements(d, rest));
    assert(a.items =~= b.items);
    assert(a.asked =~= b.asked);
}

/// `.#` at the end of a path is the number of matches: of what the bare name
/// would select. Where the scope breaks off with an error there is no count.
pub proof fn law_count_is_number_of_matches(
    d: DocV,
    i: int,
    count: nat,
    name: MatcherV,
    known: ReadingsV,
    sink: SinkV,
)
    ensures
        ({
            let r = scan(d, i, one_step(name, IndexV::Count), count, known, sink);
            &&& r.flow is Go
            &&& r.sink == if unbroken(d, i) {
                sink.push(
                    place_at(d, siblings_end(d, i)),
                    ItemV::Scalar(decimal(count + siblings(d, i, name).len())),
                )
            } else {
                sink
            }
        }),
    decreases d.events.len() - i,
{
    assert(one_step(name, IndexV::Count)[0] == StepV::Child {
        name,
        index: IndexV::Count,
        descendant: false,
    });
    if 0 <= i < d.events.len() {
        lemma_terminal_hit(d, i, name, IndexV::Count, count + 1, known, sink);
        match d.events[i].event {
            EventV::Start(tag) => {
                let j = after(d.events, i, tag);
                if hits(name, tag) {
                    law_count_is_number_of_matches(d, j, count + 1, name, known, sink);
                } else {
                    law_count_is_number_of_matches(d, j, count, name, known, sink);
                }
            },
            EventV::Empty(tag) => {
                if hits(name, tag) {
                    law_count_is_number_of_matches(d, i + 1, count + 1, name, known, sink);
                } else {
                    law_count_is_number_of_matches(d, i + 1, count, name, known, sink);
                }
            },
            EventV::End(_) => {},
            EventV::Error => {},
            _ => {
                law_count_is_number_of_matches(d, i + 1, count, name, known, sink);
            },
        }
    }
}

/// `.N` at the end of a path selects the N-th match, and nothing where there is
/// none. Of the matches, `count` came before the event `i`.
pub proof fn law_index_selects_nth_match(
    d: DocV,
    i: int,
    count: nat,
    name: MatcherV,
    n: nat,
    known: ReadingsV,
    sink: SinkV,
)
    requires
        count <= n,
    ensures
        ({
            let r = scan(d, i, one_step(name, IndexV::Nth(n)), count, known, sink);
            let ks = siblings(d, i, name);
            &&& r.flow is Go
            &&& r.sink == if n - count < ks.len() {
                sink.push(
                    place_at(d, ks[n - count]),
                    ItemV::Element(element_bytes(d, ks[n - count])),
                )
            } else {
                sink
            }
        }),
    decreases d.events.len() - i,
{
    let steps = one_step(name, IndexV::Nth(n));
    assert(steps.subrange(1, 1).len() == 0);
    if 0 <= i < d.events.len() {
        lemma_terminal_hit(d, i, name, IndexV::Nth(n), count + 1, known, sink);
        match d.events[i].event {
            EventV::Start(tag) => {
                let j = after(d.events, i, tag);
                if hits(name, tag) {
                    if count < n {
                        law_index_selects_nth_match(d, j, count + 1, name, n, known, sink);
                    }
                } else {
                    law_index_selects_nth_match(d, j, count, name, n, known, sink);
                }
            },
            EventV::Empty(tag) => {
                if hits(name, tag) {
                    if count < n {
                        law_index_selects_nth_match(d, i + 1, count + 1, name, n, known, sink);
                    }
                } else {
                    law_index_selects_nth_match(d, i + 1, count, name, n, known, sink);
                }
            },
            EventV::End(_) => {},
            EventV::Error => {},
            _ => {
                law_index_selects_nth_match(d, i + 1, count, name, n, known, sink);
            },
        }
    }
}

/// What a step does with the matching element whose tag is the event `k`.
pub open spec fn hit_at(
    d: DocV,
    k: int,
    steps: Seq<StepV>,
    count: nat,
    known: ReadingsV,
    sink: SinkV,
) -> Out {
    match d.events[k].event {
        EventV::Start(tag) => {
            let r = start_hit(d, k, tag, steps, count, known, sink);
            Out { sink: r.sink, flow: r.flow }
        },
        EventV::Empty(tag) => empty_hit(tag, place_at(d, k), steps, count, known, sink),
        _ => Out { sink, flow: FlowV::Go },
    }
}

/// The selector of a child step.
pub open spec fn index_of(step: StepV) -> IndexV {
    match step {
        StepV::Child { index, .. } => index,
        _ => IndexV::Auto,
    }
}

/// What a child step does with matching elements, one after the other, of
/// which `count` came before, up to the end of the scope, which is at the place
/// `end`. A selector of one element stops behind it.
pub open spec fn over(
    d: DocV,
    ks: Seq<int>,
    end: nat,
    steps: Seq<StepV>,
    count: nat,
    known: ReadingsV,
    sink: SinkV,
) -> Out
    decreases ks.len(),
{
    if ks.len() == 0 {
        Out { sink: finish(index_of(steps[0]), count, end, sink), flow: FlowV::Go }
    } else {
        let r = hit_at(d, ks[0], steps, count + 1, known, sink);
        match r.flow {
            FlowV::Go => over(d, ks.skip(1), end, steps, count + 1, known, r.sink),
            FlowV::Done => Out { sink: r.sink, flow: FlowV::Go },
            _ => r,
        }
    }
}

/// In a tidy document a child step handles exactly the matching elements among
/// the siblings, one after the other, in document order.
pub proof fn law_child_step_visits_siblings(
    d: DocV,
    i: int,
    steps: Seq<StepV>,
    name: MatcherV,
    count: nat,
    known: ReadingsV,
    sink: SinkV,
)
    requires
        tidy(d.events),
        0 <= i <= d.events.len(),
        steps.len() > 0,
        steps[0] matches StepV::Child { name: n, descendant: false, .. } && n == name,
    ensures
        ({
            let r = scan(d, i, steps, count, known, sink);
            Out { sink: r.sink, flow: r.flow } == over(
                d,
                siblings(d, i, name),
                place_at(d, siblings_end(d, i)),
                steps,
                count,
                known,
                sink,
            )
        }),
    decreases d.events.len() - i,
{
    if i < d.events.len() {
        assert(d.events[i].event !is Error);
        match d.events[i].event {
            EventV::Start(tag) => {
                let j = after(d.events, i, tag);
                law_skipping_leaves_the_element(d.events, i, tag);
                if hits(name, tag) {
                    let rest = siblings(d, j, name);
                    assert((seq![i] + rest).skip(1) =~= rest);
                    let r = hit(d, i, tag, steps, count + 1, known, sink);
                    assert(r == start_hit(d, i, tag, steps, count + 1, known, sink));
                    lemma_hit_next(d, i, tag, steps, count + 1, known, sink);
                    if r.flow is Go {
                        law_child_step_visits_siblings(
                            d,
                            j,
                            steps,
                            name,
                            count + 1,
                            known,
                            r.sink,
                        );
                    }
                } else {
                    law_child_step_visits_siblings(d, j, steps, name, count, known, sink);
                }
            },
            EventV::Empty(tag) => {
                if hits(name, tag) {
                    let rest = siblings(d, i + 1, name);
                    assert((seq![i] + rest).skip(1) =~= rest);
                    let r = empty_hit(tag, place_at(d, i), steps, count + 1, known, sink);
                    if r.flow is Go {
                        law_child_step_visits_siblings(
                            d,
                            i + 1,
                            steps,
                            name,
                            count + 1,
                            known,
                            r.sink,
                        );
                    }
                } else {
                    law_child_step_visits_siblings(d, i + 1, steps, name, count, known, sink);
                }
            },
            EventV::End(_) => {},
            _ => {
                law_child_step_visits_siblings(d, i + 1, steps, name, count, known, sink);
            },
        }
    }
}

/// What steps select inside the element whose tag is the event `k`.
pub open spec fn inside_of(
    d: DocV,
    k: int,
    rest: Seq<StepV>,
    known: ReadingsV,
    sink: SinkV,
) -> Out {
    match d.events[k].event {
        EventV::Start(tag) => {
            let r = descend(d, k, tag, rest, known, sink);
            Out { sink: r.sink, flow: r.flow }
        },
        EventV::Empty(tag) => Out {
            sink: in_empty(tag, place_at(d, k), rest, sink),
            flow: FlowV::Go,
        },
        _ => Out { sink, flow: FlowV::Go },
    }
}

proof fn lemma_inside_flow(d: DocV, k: int, rest: Seq<StepV>, known: ReadingsV, sink: SinkV)
    ensures
        inside_of(d, k, rest, known, sink).flow !is Done,
{
    if let EventV::Start(tag) = d.events[k].event {
        lemma_descend_flow(d, k, tag, rest, known, sink);
    }
}

/// A child step without a filter hands its matches to the steps behind it.
proof fn lemma_hit_at(
    d: DocV,
    k: int,
    steps: Seq<StepV>,
    count: nat,
    known: ReadingsV,
    sink: SinkV,
)
    requires
        0 <= k < d.events.len(),
        d.events[k].event is Start || d.events[k].event is Empty,
        steps.len() > 0,
        steps[0] is Child,
    ensures
        ({
            let rest = steps.subrange(1, steps.len() as int);
            let r = hit_at(d, k, steps, count, known, sink);
            match index_of(steps[0]) {
                IndexV::Auto => r == if rest.len() > 0 && count > 1 {
                    Out { sink, flow: FlowV::Ambiguous(name_of(steps[0]).source()) }
                } else {
                    inside_of(d, k, rest, known, sink)
                },
                IndexV::Each => r == inside_of(d, k, rest, known, sink),
                IndexV::Nth(n) => r == if count == n + 1 {
                    let found = inside_of(d, k, rest, known, sink);
                    Out { flow: done_if(true, found.flow), ..found }
                } else {
                    Out { sink, flow: FlowV::Go }
                },
                IndexV::Count => r == (Out { sink, flow: FlowV::Go }),
                _ => true,
            }
        }),
{
    let rest = steps.subrange(1, steps.len() as int);
    if let EventV::Start(tag) = d.events[k].event {
        let r = descend(d, k, tag, rest, known, sink);
    }
}

/// The name pattern of a child step.
pub open spec fn name_of(step: StepV) -> MatcherV {
    match step {
        StepV::Child { name, .. } => name,
        _ => MatcherV::Exact(Seq::empty()),
    }
}

/// Siblings are tags.
proof fn lemma_siblings(d: DocV, i: int, name: MatcherV)
    ensures
        forall|j: int|
            0 <= j < siblings(d, i, name).len() ==> {
                let k = #[trigger] siblings(d, i, name)[j];
                0 <= k < d.events.len() && (d.events[k].event is Start || d.events[k].event is Empty)
            },
    decreases d.events.len() - i,
{
    if 0 <= i < d.events.len() {
        match d.events[i].event {
            EventV::Start(tag) => lemma_siblings(d, after(d.events, i, tag), name),
            EventV::End(_) => {},
            EventV::Error => {},
            _ => lemma_siblings(d, i + 1, name),
        }
    }
}

/// A bare name before further steps has to match a single element. No match
/// selects nothing. One match is entered. With several the path is ambiguous:
/// at this name, unless it already is at a later one, inside the first match.
pub proof fn law_bare_name_before_steps(
    d: DocV,
    i: int,
    steps: Seq<StepV>,
    known: ReadingsV,
    sink: SinkV,
)
    requires
        tidy(d.events),
        0 <= i <= d.events.len(),
        steps.len() > 1,
        steps[0] matches StepV::Child { index: IndexV::Auto, descendant: false, .. },
    ensures
        ({
            let rest = steps.subrange(1, steps.len() as int);
            let name = name_of(steps[0]);
            let ks = siblings(d, i, name);
            let r = scan(d, i, steps, 0, known, sink);
            let first = inside_of(d, ks[0], rest, known, sink);
            if ks.len() == 0 {
                r.flow is Go && r.sink == sink
            } else if ks.len() == 1 {
                r.flow == first.flow && r.sink == first.sink
            } else {
                &&& r.flow is Ambiguous
                &&& r.flow == if first.flow is Go {
                    FlowV::Ambiguous(name.source())
                } else {
                    first.flow
                }
            }
        }),
{
    let name = name_of(steps[0]);
    let ks = siblings(d, i, name);
    let rest = steps.subrange(1, steps.len() as int);
    law_child_step_visits_siblings(d, i, steps, name, 0, known, sink);
    lemma_siblings(d, i, name);
    if ks.len() > 0 {
        lemma_hit_at(d, ks[0], steps, 1, known, sink);
        let first = inside_of(d, ks[0], rest, known, sink);
        lemma_inside_flow(d, ks[0], rest, known, sink);
        if first.flow is Go {
            let end = place_at(d, siblings_end(d, i));
            let then = over(d, ks.skip(1), end, steps, 1, known, first.sink);
            if ks.len() > 1 {
                assert(ks.skip(1)[0] == ks[1]);
                lemma_hit_at(d, ks[1], steps, 2, known, first.sink);
            }
        }
    }
}

/// What steps select inside elements, one after the other, up to where the
/// pass ends.
pub open spec fn inside_each(
    d: DocV,
    ks: Seq<int>,
    rest: Seq<StepV>,
    known: ReadingsV,
    sink: SinkV,
) -> Out
    decreases ks.len(),
{
    if ks.len() == 0 {
        Out { sink, flow: FlowV::Go }
    } else {
        let r = inside_of(d, ks[0], rest, known, sink);
        if r.flow is Go {
            inside_each(d, ks.skip(1), rest, known, r.sink)
        } else {
            r
        }
    }
}

proof fn lemma_over_each(
    d: DocV,
    ks: Seq<int>,
    end: nat,
    steps: Seq<StepV>,
    count: nat,
    known: ReadingsV,
    sink: SinkV,
)
    requires
        steps.len() > 0,
        steps[0] matches StepV::Child { index: IndexV::Each, .. },
        forall|j: int|
            0 <= j < ks.len() ==> 0 <= #[trigger] ks[j] < d.events.len() && (
            d.events[ks[j]].event is Start || d.events[ks[j]].event is Empty),
    ensures
        over(d, ks, end, steps, count, known, sink) == inside_each(
            d,
            ks,
            steps.subrange(1, steps.len() as int),
            known,
            sink,
        ),
    decreases ks.len(),
{
    if ks.len() > 0 {
        lemma_hit_at(d, ks[0], steps, count + 1, known, sink);
        lemma_inside_flow(d, ks[0], steps.subrange(1, steps.len() as int), known, sink);
        let r = hit_at(d, ks[0], steps, count + 1, known, sink);
        if r.flow is Go {
            assert forall|j: int| 0 <= j < ks.skip(1).len() implies 0 <= #[trigger] ks.skip(1)[j]
                < d.events.len() && (d.events[ks.skip(1)[j]].event is Start
                || d.events[ks.skip(1)[j]].event is Empty) by {
                assert(ks.skip(1)[j] == ks[j + 1]);
            }
            lemma_over_each(d, ks.skip(1), end, steps, count + 1, known, r.sink);
        }
    }
}

/// `.#` before further steps projects them over every match, in document
/// order.
pub proof fn law_projection_visits_each_match(
    d: DocV,
    i: int,
    steps: Seq<StepV>,
    known: ReadingsV,
    sink: SinkV,
)
    requires
        tidy(d.events),
        0 <= i <= d.events.len(),
        steps.len() > 0,
        steps[0] matches StepV::Child { index: IndexV::Each, descendant: false, .. },
    ensures
        ({
            let r = scan(d, i, steps, 0, known, sink);
            Out { sink: r.sink, flow: r.flow } == inside_each(
                d,
                siblings(d, i, name_of(steps[0])),
                steps.subrange(1, steps.len() as int),
                known,
                sink,
            )
        }),
{
    let name = name_of(steps[0]);
    law_child_step_visits_siblings(d, i, steps, name, 0, known, sink);
    lemma_siblings(d, i, name);
    let end = place_at(d, siblings_end(d, i));
    lemma_over_each(d, siblings(d, i, name), end, steps, 0, known, sink);
}

/// `.N` before further steps selects them inside the N-th match and nowhere
/// else.
pub proof fn law_index_enters_nth_match(
    d: DocV,
    i: int,
    steps: Seq<StepV>,
    n: nat,
    known: ReadingsV,
    sink: SinkV,
)
    requires
        tidy(d.events),
        0 <= i <= d.events.len(),
        steps.len() > 0,
        steps[0] matches StepV::Child { index: IndexV::Nth(m), descendant: false, .. } && m == n,
    ensures
        ({
            let r = scan(d, i, steps, 0, known, sink);
            let ks = siblings(d, i, name_of(steps[0]));
            let found = inside_of(
                d,
                ks[n as int],
                steps.subrange(1, steps.len() as int),
                known,
                sink,
            );
            if n < ks.len() {
                r.sink == found.sink && r.flow == found.flow
            } else {
                r.sink == sink && r.flow is Go
            }
        }),
{
    let name = name_of(steps[0]);
    law_child_step_visits_siblings(d, i, steps, name, 0, known, sink);
    lemma_siblings(d, i, name);
    let end = place_at(d, siblings_end(d, i));
    lemma_over_nth(d, siblings(d, i, name), end, steps, 0, n, known, sink);
}

proof fn lemma_over_nth(
    d: DocV,
    ks: Seq<int>,
    end: nat,
    steps: Seq<StepV>,
    count: nat,
    n: nat,
    known: ReadingsV,
    sink: SinkV,
)
    requires
        steps.len() > 0,
        steps[0] matches StepV::Child { index: IndexV::Nth(m), .. } && m == n,
        forall|j: int|
            0 <= j < ks.len() ==> 0 <= #[trigger] ks[j] < d.events.len() && (
            d.events[ks[j]].event is Start || d.events[ks[j]].event is Empty),
    ensures
        ({
            let r = over(d, ks, end, steps, count, known, sink);
            let found = inside_of(
                d,
                ks[n - count],
                steps.subrange(1, steps.len() as int),
                known,
                sink,
            );
            if count <= n && n - count < ks.len() {
                r.sink == found.sink && r.flow == found.flow
            } else {
                r.sink == sink && r.flow is Go
            }
        }),
    decreases ks.len(),
{
    if ks.len() > 0 {
        lemma_hit_at(d, ks[0], steps, count + 1, known, sink);
        lemma_inside_flow(d, ks[0], steps.subrange(1, steps.len() as int), known, sink);
        let r = hit_at(d, ks[0], steps, count + 1, known, sink);
        if r.flow is Go {
            let rest = ks.skip(1);
            assert forall|j: int| 0 <= j < rest.len() implies 0 <= #[trigger] rest[j]
                < d.events.len() && (d.events[rest[j]].event is Start
                || d.events[rest[j]].event is Empty) by {
                assert(rest[j] == ks[j + 1]);
            }
            lemma_over_nth(d, rest, end, steps, count + 1, n, known, r.sink);
            if count < n && n - count < ks.len() {
                assert(rest[n - count - 1] == ks[n - count]);
            }
        }
    }
}

proof fn lemma_inside_each_parts(
    d: DocV,
    a: Seq<int>,
    b: Seq<int>,
    rest: Seq<StepV>,
    known: ReadingsV,
    sink: SinkV,
)
    ensures
        inside_each(d, a + b, rest, known, sink) == ({
            let first = inside_each(d, a, rest, known, sink);
            if first.flow is Go {
                inside_each(d, b, rest, known, first.sink)
            } else {
                first
            }
        }),
    decreases a.len(),
{
    if a.len() == 0 {
        assert(a + b =~= b);
    } else {
        assert((a + b)[0] == a[0]);
        assert((a + b).skip(1) =~= a.skip(1) + b);
        let r = inside_of(d, a[0], rest, known, sink);
        if r.flow is Go {
            lemma_inside_each_parts(d, a.skip(1), b, rest, known, r.sink);
        }
    }
}

/// All elements that a name pattern matches at any depth, from the event `i`
/// on to the end of the scope.
pub open spec fn everywhere(d: DocV, i: int, name: MatcherV) -> Seq<int>
    decreases d.events.len() - i,
{
    if i < 0 || i >= d.events.len() {
        Seq::empty()
    } else {
        match d.events[i].event {
            EventV::Start(tag) => {
                let rest = everywhere(d, i + 1, name) + everywhere(d, after(d.events, i, tag), name);
                if hits(name, tag) {
                    seq![i] + rest
                } else {
                    rest
                }
            },
            EventV::Empty(tag) => {
                let rest = everywhere(d, i + 1, name);
                if hits(name, tag) {
                    seq![i] + rest
                } else {
                    rest
                }
            },
            EventV::End(_) => Seq::empty(),
            EventV::Error => Seq::empty(),
            _ => everywhere(d, i + 1, name),
        }
    }
}

/// `**.name` selects inside every match at any depth, in document order; a match
/// inside another comes behind it.
pub proof fn law_descendant_visits_every_match(
    d: DocV,
    i: int,
    steps: Seq<StepV>,
    count: nat,
    known: ReadingsV,
    sink: SinkV,
)
    requires
        tidy(d.events),
        0 <= i <= d.events.len(),
        steps.len() > 0,
        steps[0] matches StepV::Child { index: IndexV::Each, descendant: true, .. },
    ensures
        ({
            let r = scan(d, i, steps, count, known, sink);
            Out { sink: r.sink, flow: r.flow } == inside_each(
                d,
                everywhere(d, i, name_of(steps[0])),
                steps.subrange(1, steps.len() as int),
                known,
                sink,
            )
        }),
    decreases d.events.len() - i,
{
    let name = name_of(steps[0]);
    let rest = steps.subrange(1, steps.len() as int);
    if i < d.events.len() {
        assert(d.events[i].event !is Error);
        match d.events[i].event {
            EventV::Start(tag) => {
                let j = after(d.events, i, tag);
                let inner = everywhere(d, i + 1, name);
                let later = everywhere(d, j, name);
                law_skipping_leaves_the_element(d.events, i, tag);
                if hits(name, tag) {
                    lemma_hit_at(d, i, steps, count + 1, known, sink);
                    lemma_inside_flow(d, i, rest, known, sink);
                    assert((seq![i] + (inner + later)).skip(1) =~= inner + later);
                    let first = start_hit(d, i, tag, steps, count + 1, known, sink);
                    let r = hit(d, i, tag, steps, count + 1, known, sink);
                    lemma_hit_next(d, i, tag, steps, count + 1, known, sink);
                    if first.flow is Go {
                        let nested = enter(d, i + 1, Some(tag), steps, known, first.sink);
                        assert(nested == scan(d, i + 1, steps, 0, known, first.sink));
                        law_descendant_visits_every_match(d, i + 1, steps, 0, known, first.sink);
                        lemma_enter_flow(d, i + 1, Some(tag), steps, known, first.sink);
                        lemma_inside_each_parts(d, inner, later, rest, known, first.sink);
                        if r.flow is Go {
                            law_descendant_visits_every_match(
                                d,
                                j,
                                steps,
                                count + 1,
                                known,
                                r.sink,
                            );
                        }
                    }
                } else {
                    let r = enter(d, i + 1, Some(tag), steps, known, sink);
                    lemma_enter_next(d, i + 1, Some(tag), steps, known, sink);
                    law_descendant_visits_every_match(d, i + 1, steps, 0, known, sink);
                    assert(r == scan(d, i + 1, steps, 0, known, sink));
                    lemma_inside_each_parts(
                        d,
                        everywhere(d, i + 1, name),
                        later,
                        rest,
                        known,
                        sink,
                    );
                    if r.flow is Go {
                        law_descendant_visits_every_match(d, j, steps, count, known, r.sink);
                    }
                }
            },
            EventV::Empty(tag) => {
                let later = everywhere(d, i + 1, name);
                if hits(name, tag) {
                    lemma_hit_at(d, i, steps, count + 1, known, sink);
                    assert((seq![i] + later).skip(1) =~= later);
                    let r = empty_hit(tag, place_at(d, i), steps, count + 1, known, sink);
                    if r.flow is Go {
                        law_descendant_visits_every_match(d, i + 1, steps, count + 1, known, r.sink);
                    }
                } else {
                    law_descendant_visits_every_match(d, i + 1, steps, count, known, sink);
                }
            },
            EventV::End(_) => {},
            _ => {
                law_descendant_visits_every_match(d, i + 1, steps, count, known, sink);
            },
        }
    }
}

/// How a filter decides about the candidate whose tag is the event `k`.
pub open spec fn judged(d: DocV, k: int, filter: FilterV, known: ReadingsV) -> Tested {
    match (d.events[k].event, filter.attr_only) {
        (EventV::Start(tag), Some(name)) => {
            let (pass, asked) = attr_test(tag, name, filter, known);
            Tested { pass, sink: nothing().ask(asked), flow: FlowV::Go }
        },
        _ => filter_test(element_bytes(d, k), filter, known, nothing()),
    }
}

/// Whether a filter decides about all candidates with the numbers that are
/// known.
pub open spec fn all_judged(d: DocV, ks: Seq<int>, filter: FilterV, known: ReadingsV) -> bool {
    forall|j: int|
        0 <= j < ks.len() ==> (#[trigger] judged(d, ks[j], filter, known)).flow is Go && judged(
            d,
            ks[j],
            filter,
            known,
        ).sink.asked.len() == 0
}

/// The candidates that pass a filter.
pub open spec fn passing(d: DocV, ks: Seq<int>, filter: FilterV, known: ReadingsV) -> Seq<int>
    decreases ks.len(),
{
    if ks.len() == 0 {
        Seq::empty()
    } else {
        let rest = passing(d, ks.skip(1), filter, known);
        if judged(d, ks[0], filter, known).pass {
            seq![ks[0]] + rest
        } else {
            rest
        }
    }
}

proof fn lemma_filter_selects(
    d: DocV,
    k: int,
    steps: Seq<StepV>,
    count: nat,
    known: ReadingsV,
    sink: SinkV,
)
    requires
        0 <= k < d.events.len(),
        d.events[k].event is Start || d.events[k].event is Empty,
        steps.len() == 1,
        steps[0] matches StepV::Child { index, .. } && (index is FilterFirst || index is FilterAll),
        judged(d, k, filter_of(steps[0]).unwrap(), known).flow is Go,
        judged(d, k, filter_of(steps[0]).unwrap(), known).sink.asked.len() == 0,
    ensures
        hit_at(d, k, steps, count, known, sink) == if judged(
            d,
            k,
            filter_of(steps[0]).unwrap(),
            known,
        ).pass {
            Out {
                sink: sink.push(place_at(d, k), ItemV::Element(element_bytes(d, k))),
                flow: done_if(wants_first(steps[0]), FlowV::Go),
            }
        } else {
            Out { sink, flow: FlowV::Go }
        },
{
    let filter = filter_of(steps[0]).unwrap();
    let rest = steps.subrange(1, 1);
    let bytes = element_bytes(d, k);
    let t = judged(d, k, filter, known);
    assert(rest.len() == 0);
    assert(sink.asked + Seq::<Seq<char>>::empty() =~= sink.asked);
    assert(sink.items + Seq::<FoundV>::empty() =~= sink.items);
    assert(t.sink.asked =~= Seq::<Seq<char>>::empty());
    lemma_test_adds(bytes, filter, known, sink);
    let told = within(bytes, place_at(d, k), rest, known, sink);
    match d.events[k].event {
        EventV::Start(tag) => {
            let r = filter_hit(d, k, tag, steps, known, sink);
            match filter.attr_only {
                Some(name) => {
                    let asked = attr_test(tag, name, filter, known).1;
                    assert(asked =~= Seq::<Seq<char>>::empty()) by {
                        assert(nothing().ask(asked).asked.len() == asked.len());
                    }
                    assert(sink.ask(asked) == sink);
                    let inner = descend(d, k, tag, rest, known, sink);
                },
                None => {
                    assert(t.sink.items =~= Seq::<FoundV>::empty());
                },
            }
        },
        EventV::Empty(tag) => {
            let r = empty_hit(tag, place_at(d, k), steps, count, known, sink);
            assert(t.sink.items =~= Seq::<FoundV>::empty());
        },
        _ => {},
    }
}

/// `#(..)#` at the end of a path selects exactly the matching elements that
/// pass the filter, in document order, once all numbers are known that the
/// filter has to compare.
pub proof fn law_filter_selects_passing(
    d: DocV,
    i: int,
    name: MatcherV,
    filter: FilterV,
    known: ReadingsV,
    sink: SinkV,
)
    requires
        tidy(d.events),
        0 <= i <= d.events.len(),
        all_judged(d, siblings(d, i, name), filter, known),
    ensures
        ({
            let r = scan(d, i, one_step(name, IndexV::FilterAll(filter)), 0, known, sink);
            &&& r.flow is Go
            &&& r.sink.items == sink.items + elements(
                d,
                passing(d, siblings(d, i, name), filter, known),
            )
            &&& r.sink.asked == sink.asked
        }),
{
    let steps = one_step(name, IndexV::FilterAll(filter));
    law_child_step_visits_siblings(d, i, steps, name, 0, known, sink);
    lemma_siblings(d, i, name);
    let end = place_at(d, siblings_end(d, i));
    lemma_over_filter(d, siblings(d, i, name), end, steps, 0, known, sink);
}

/// `#(..)` at the end of a path selects the first matching element that passes
/// the filter; without such an element nothing is selected.
pub proof fn law_filter_selects_first_passing(
    d: DocV,
    i: int,
    name: MatcherV,
    filter: FilterV,
    known: ReadingsV,
    sink: SinkV,
)
    requires
        tidy(d.events),
        0 <= i <= d.events.len(),
        all_judged(d, siblings(d, i, name), filter, known),
    ensures
        ({
            let r = scan(d, i, one_step(name, IndexV::FilterFirst(filter)), 0, known, sink);
            let found = passing(d, siblings(d, i, name), filter, known);
            &&& r.flow is Go
            &&& r.sink == if found.len() == 0 {
                sink
            } else {
                sink.push(place_at(d, found[0]), ItemV::Element(element_bytes(d, found[0])))
            }
        }),
{
    let steps = one_step(name, IndexV::FilterFirst(filter));
    law_child_step_visits_siblings(d, i, steps, name, 0, known, sink);
    lemma_siblings(d, i, name);
    let end = place_at(d, siblings_end(d, i));
    lemma_over_filter(d, siblings(d, i, name), end, steps, 0, known, sink);
}

proof fn lemma_over_filter(
    d: DocV,
    ks: Seq<int>,
    end: nat,
    steps: Seq<StepV>,
    count: nat,
    known: ReadingsV,
    sink: SinkV,
)
    requires
        steps.len() == 1,
        steps[0] matches StepV::Child { index, .. } && (index is FilterFirst || index is FilterAll),
        all_judged(d, ks, filter_of(steps[0]).unwrap(), known),
        forall|j: int|
            0 <= j < ks.len() ==> 0 <= #[trigger] ks[j] < d.events.len() && (
            d.events[ks[j]].event is Start || d.events[ks[j]].event is Empty),
    ensures
        ({
            let r = over(d, ks, end, steps, count, known, sink);
            let found = passing(d, ks, filter_of(steps[0]).unwrap(), known);
            if wants_first(steps[0]) {
                r == if found.len() == 0 {
                    Out { sink, flow: FlowV::Go }
                } else {
                    Out {
                        sink: sink.push(
                            place_at(d, found[0]),
                            ItemV::Element(element_bytes(d, found[0])),
                        ),
                        flow: FlowV::Go,
                    }
                }
            } else {
                &&& r.flow is Go
                &&& r.sink.items == sink.items + elements(d, found)
                &&& r.sink.asked == sink.asked
            }
        }),
    decreases ks.len(),
{
    let filter = filter_of(steps[0]).unwrap();
    let found = passing(d, ks, filter, known);
    if ks.len() == 0 {
        assert(sink.items + elements(d, found) =~= sink.items);
    } else {
        let rest = ks.skip(1);
        let later = passing(d, rest, filter, known);
        assert(judged(d, ks[0], filter, known).flow is Go);
        lemma_filter_selects(d, ks[0], steps, count + 1, known, sink);
        let r = hit_at(d, ks[0], steps, count + 1, known, sink);
        assert forall|j: int| 0 <= j < rest.len() implies 0 <= #[trigger] rest[j]
            < d.events.len() && (d.events[rest[j]].event is Start
            || d.events[rest[j]].event is Empty) by {
            assert(rest[j] == ks[j + 1]);
        }
        assert(all_judged(d, rest, filter, known)) by {
            assert forall|j: int| 0 <= j < rest.len() implies (#[trigger] judged(
                d,
                rest[j],
                filter,
                known,
            )).flow is Go && judged(d, rest[j], filter, known).sink.asked.len() == 0 by {
                assert(judged(d, ks[j + 1], filter, known).flow is Go);
            }
        }
        if r.flow is Go {
            lemma_over_filter(d, rest, end, steps, count + 1, known, r.sink);
            if judged(d, ks[0], filter, known).pass {
                lemma_one_more(d, ks[0], later, sink);
            }
        }
    }
}

} // verus!
