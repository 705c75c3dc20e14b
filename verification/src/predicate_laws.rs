//! What holds of every filter: what it looks at, and what is entered behind it.

use vstd::prelude::*;
use vstd::utf8::{decode_utf8, valid_utf8};

use crate::content_laws::{inside, law_element_ends_with_its_end_tag};
use crate::laws::{element_bytes, hit_at, judged, lemma_test_adds};
use crate::number::ReadingsV;
use crate::path::{FilterV, IndexV, StepV};
use crate::semantics::{
    after, attr_test, child_text, compare, descend, enter, filter_of, filter_test, in_empty,
    nothing, scan, tidy, within, FlowV, FoundV, ItemV, Out, SinkV,
};
use crate::text::text_or_empty;
use crate::wildcard::MatcherV;
use crate::xml::{attr_value, doc_of, place_at, DocV, EventV, TagV};

verus! {

/// A predicate on an attribute compares the value of that attribute. Without the
/// attribute, or where its value is no text, it does not hold, whatever the
/// operator, and asks for nothing.
pub proof fn law_attribute_predicates_compare_the_value(
    tag: TagV,
    name: Seq<char>,
    filter: FilterV,
    known: ReadingsV,
)
    ensures
        match attr_value(tag, name) {
            Some(value) if valid_utf8(value) => attr_test(tag, name, filter, known) == compare(
                decode_utf8(value),
                filter.op,
                filter.value,
                known,
            ),
            _ => attr_test(tag, name, filter, known) == (false, Seq::<Seq<char>>::empty()),
        },
{
}

/// A predicate on a child compares the text of the child that it looks at. Without
/// such a child it does not hold, whatever the operator, and asks for nothing.
pub proof fn law_child_predicates_compare_the_text(
    bytes: Seq<u8>,
    name: MatcherV,
    filter: FilterV,
    known: ReadingsV,
    sink: SinkV,
)
    requires
        filter.path == seq![StepV::Child { name, index: IndexV::Auto, descendant: false }],
    ensures
        ({
            let t = filter_test(bytes, filter, known, sink);
            &&& t.flow is Go
            &&& t.sink.items == sink.items
            &&& match child_text(doc_of(bytes).events, 0, false, name) {
                Some(text) => {
                    let (pass, asked) = compare(
                        text_or_empty(text),
                        filter.op,
                        filter.value,
                        known,
                    );
                    t.pass == pass && t.sink.asked == sink.asked + asked
                },
                None => !t.pass && t.sink.asked == sink.asked,
            }
        }),
{
    assert(filter.path[0] == (StepV::Child { name, index: IndexV::Auto, descendant: false }));
    assert(sink.asked + Seq::<Seq<char>>::empty() =~= sink.asked);
}

/// A predicate on any other path compares the text of the first thing that the path
/// selects inside the candidate. Where it selects nothing, it does not hold, whatever
/// the operator; where it is ambiguous, so is the whole query. What is found on the
/// way is no result of the query.
pub proof fn law_path_predicates_compare_the_first(
    bytes: Seq<u8>,
    filter: FilterV,
    known: ReadingsV,
)
    requires
        filter.path.len() != 1 || match filter.path[0] {
            StepV::Child { index, descendant, .. } => !(index is Auto) || descendant,
            _ => true,
        },
    ensures
        ({
            let t = filter_test(bytes, filter, known, nothing());
            let r = within(bytes, 0, filter.path, known, nothing());
            &&& t.flow == r.flow
            &&& t.sink.items.len() == 0
            &&& if r.flow is Go && r.sink.items.len() > 0 {
                let (pass, asked) = compare(
                    text_or_empty(crate::semantics::text_of(r.sink.items[0].item)),
                    filter.op,
                    filter.value,
                    known,
                );
                t.pass == pass && t.sink.asked == r.sink.asked + asked
            } else {
                !t.pass && t.sink.asked == r.sink.asked
            }
        }),
{
    assert((SinkV { items: Seq::empty(), asked: nothing().asked }) == nothing());
}

/// What the steps behind a filter select in a candidate that passes it.
pub open spec fn entered(
    d: DocV,
    k: int,
    filter: FilterV,
    rest: Seq<StepV>,
    known: ReadingsV,
    sink: SinkV,
) -> Out {
    match d.events[k].event {
        EventV::Start(tag) => if filter.attr_only is Some {
            let r = descend(d, k, tag, rest, known, sink);
            Out { sink: r.sink, flow: r.flow }
        } else {
            within(element_bytes(d, k), place_at(d, k), rest, known, sink)
        },
        EventV::Empty(tag) => Out {
            sink: in_empty(tag, place_at(d, k), rest, sink),
            flow: FlowV::Go,
        },
        _ => Out { sink, flow: FlowV::Go },
    }
}

/// A filter lets the steps behind it into every candidate that passes, and into no
/// other; one that wants the first is done with its scope at the first candidate
/// that passes, whether anything is selected in it or not.
pub proof fn law_filters_enter_what_passes(
    d: DocV,
    k: int,
    steps: Seq<StepV>,
    count: nat,
    known: ReadingsV,
    sink: SinkV,
)
    requires
        0 <= k < d.events.len(),
        d.events[k].event is Start || d.events[k].event is Empty,
        steps.len() > 0,
        steps[0] matches StepV::Child { index, .. } && (index is FilterFirst || index is FilterAll),
        judged(d, k, filter_of(steps[0]).unwrap(), known).flow is Go,
        judged(d, k, filter_of(steps[0]).unwrap(), known).sink.asked.len() == 0,
    ensures
        ({
            let filter = filter_of(steps[0]).unwrap();
            let rest = steps.subrange(1, steps.len() as int);
            let r = hit_at(d, k, steps, count, known, sink);
            let e = entered(d, k, filter, rest, known, sink);
            if judged(d, k, filter, known).pass {
                &&& r.sink == e.sink
                &&& r.flow == if e.flow is Go && steps[0]->index is FilterFirst {
                    FlowV::Done
                } else {
                    e.flow
                }
            } else {
                r.sink == sink && r.flow is Go
            }
        }),
{
    let filter = filter_of(steps[0]).unwrap();
    let rest = steps.subrange(1, steps.len() as int);
    let bytes = element_bytes(d, k);
    let t = judged(d, k, filter, known);
    assert(sink.asked + Seq::<Seq<char>>::empty() =~= sink.asked);
    assert(sink.items + Seq::<FoundV>::empty() =~= sink.items);
    assert(t.sink.asked =~= Seq::<Seq<char>>::empty());
    lemma_test_adds(bytes, filter, known, sink);
    match d.events[k].event {
        EventV::Start(tag) => {
            match filter.attr_only {
                Some(name) => {
                    let asked = attr_test(tag, name, filter, known).1;
                    assert(asked =~= Seq::<Seq<char>>::empty()) by {
                        assert(nothing().ask(asked).asked.len() == asked.len());
                    }
                    assert(sink.ask(asked) == sink);
                },
                None => {
                    lemma_no_items(bytes, filter, known);
                    assert(t.sink.items =~= Seq::<FoundV>::empty());
                },
            }
        },
        EventV::Empty(tag) => {
            lemma_no_items(bytes, filter, known);
            assert(t.sink.items =~= Seq::<FoundV>::empty());
        },
        _ => {},
    }
}

proof fn lemma_no_items(bytes: Seq<u8>, filter: FilterV, known: ReadingsV)
    ensures
        filter_test(bytes, filter, known, nothing()).sink.items.len() == 0,
{
}

/// At the top of a document, outside of any element, there is no attribute, and the
/// text is empty.
pub proof fn law_nothing_stands_at_the_top(d: DocV, i: int, name: Seq<char>, known: ReadingsV)
    ensures
        ({
            let r = enter(d, i, None, seq![StepV::Attribute(name)], known, nothing());
            r.sink == nothing() && r.flow is Go
        }),
        ({
            let r = enter(d, i, None, seq![StepV::Text], known, nothing());
            &&& r.flow is Go
            &&& r.sink.asked.len() == 0
            &&& r.sink.items == seq![FoundV { place: d.base, item: ItemV::Scalar(Seq::empty()) }]
        }),
{
    let r = enter(d, i, None, seq![StepV::Text], known, nothing());
    assert(r.sink.items =~= seq![FoundV { place: d.base, item: ItemV::Scalar(Seq::empty()) }]);
}

/// A scope is over where the parser refuses what comes next: nothing behind it is
/// looked at, and nothing is counted. Where the document ends instead, a count is
/// what has matched so far.
pub proof fn law_reading_stops_at_what_is_refused(
    d: DocV,
    i: int,
    steps: Seq<StepV>,
    count: nat,
    known: ReadingsV,
    sink: SinkV,
)
    requires
        steps.len() > 0,
        steps[0] is Child,
        0 <= i <= d.events.len(),
    ensures
        i < d.events.len() && d.events[i].event is Error ==> {
            let r = scan(d, i, steps, count, known, sink);
            r.sink == sink && r.flow is Go && r.next == i + 1
        },
        i == d.events.len() ==> {
            let r = scan(d, i, steps, count, known, sink);
            &&& r.flow is Go
            &&& if steps[0]->index is Count {
                r.sink == sink.push(
                    place_at(d, i),
                    ItemV::Scalar(crate::text::decimal(count)),
                )
            } else {
                r.sink == sink
            }
        },
{
}

/// A captured element is the bytes of the document from behind what comes before its
/// start tag to behind the end tag that closes it.
pub proof fn law_captured_elements_are_whole(d: DocV, k: int, tag: TagV)
    requires
        tidy(d.events),
        0 <= k < d.events.len(),
        d.events[k].event == EventV::Start(tag),
    ensures
        exists|e: int|
            k < e < d.events.len() && #[trigger] inside(d.events, k, e) && !inside(
                d.events,
                k,
                e + 1,
            ) && d.events[e].event == EventV::End(tag.name()) && element_bytes(d, k)
                == d.bytes.subrange(
                if k == 0 {
                    0
                } else {
                    d.events[k - 1].end as int
                },
                d.events[e].end as int,
            ),
{
    law_element_ends_with_its_end_tag(d.events, k, tag);
    let e = after(d.events, k, tag) - 1;
    assert(inside(d.events, k, e));
    assert(e + 1 <= d.events.len());
    assert(!inside(d.events, k, e + 1));
}

} // verus!
