//! What holds of paths that reach one element in several ways: it is selected
//! once.

use vstd::prelude::*;

use crate::engine::{selected, ErrorV};
use crate::laws::{element_at, elements};
use crate::lockstep_laws::lemma_each_modified;
use crate::many::many_outcome;
use crate::modifiers::all_modified;
use crate::number::ReadingsV;
use crate::path::{IndexV, ProgramV, StepV};
use crate::semantics::{
    after, at_any_depth, attr_test, descend, empty_hit, enter, entries, filter_hit, filter_of,
    filter_test, firsts, found_at, hit, hits, nothing, onward, scan, start_hit, FlowV, FoundV,
    ItemV, SinkV,
};
use crate::xml::{doc_of, empty_element, ordered, place_at, DocV, EventAt, EventV, TagV};

verus! {

/// Whether something is the first that has been found at its place.
pub open spec fn is_first(found: Seq<FoundV>, k: int) -> bool {
    &&& 0 <= k < found.len()
    &&& forall|j: int| 0 <= j < k ==> (#[trigger] found[j]).place != found[k].place
}

/// Of what has been found, exactly that is kept which is the first at its place,
/// in the order in which it has been found: `ks` tells where. So nothing is kept
/// from one place twice, and something is kept from every place.
pub proof fn law_each_place_is_kept_once(found: Seq<FoundV>) -> (ks: Seq<int>)
    ensures
        ks.len() == firsts(found).len(),
        forall|j: int|
            0 <= j < ks.len() ==> is_first(found, #[trigger] ks[j]) && firsts(found)[j]
                == found[ks[j]],
        forall|j: int, m: int| 0 <= j < m < ks.len() ==> #[trigger] ks[j] < #[trigger] ks[m],
        forall|k: int| #[trigger] is_first(found, k) ==> ks.contains(k),
        forall|j: int, m: int|
            0 <= j < m < firsts(found).len() ==> (#[trigger] firsts(found)[j]).place != (
            #[trigger] firsts(found)[m]).place,
        forall|k: int|
            0 <= k < found.len() ==> found_at(firsts(found), (#[trigger] found[k]).place),
    decreases found.len(),
{
    if found.len() == 0 {
        Seq::empty()
    } else {
        let head = found.drop_last();
        let last = found.len() - 1;
        let before = firsts(head);
        let place = found.last().place;
        let ks = law_each_place_is_kept_once(head);
        assert forall|j: int| 0 <= j < ks.len() implies is_first(found, #[trigger] ks[j])
            && before[j] == found[ks[j]] by {
            assert(is_first(head, ks[j]));
            assert forall|m: int| 0 <= m < ks[j] implies (#[trigger] found[m]).place
                != found[ks[j]].place by {
                assert(head[m].place != head[ks[j]].place);
            }
        }
        assert forall|k: int| is_first(found, k) && k < last implies is_first(head, k) by {
            assert forall|m: int| 0 <= m < k implies (#[trigger] head[m]).place
                != head[k].place by {
                assert(found[m].place != found[k].place);
            }
        }
        if found_at(before, place) {
            let j = choose|j: int| 0 <= j < before.len() && (#[trigger] before[j]).place == place;
            assert(!is_first(found, last)) by {
                assert(is_first(head, ks[j]));
                assert(found[ks[j]].place == place);
            }
            assert forall|k: int| #[trigger] is_first(found, k) implies ks.contains(k) by {
                assert(k < last);
                assert(is_first(head, k));
            }
            assert forall|k: int| 0 <= k < found.len() implies found_at(
                before,
                (#[trigger] found[k]).place,
            ) by {
                if k < last {
                    assert(head[k] == found[k]);
                }
            }
            ks
        } else {
            let all = ks.push(last);
            let kept = before.push(found.last());
            assert(is_first(found, last)) by {
                assert forall|m: int| 0 <= m < last implies (#[trigger] found[m]).place
                    != place by {
                    assert(found_at(before, head[m].place));
                }
            }
            assert forall|j: int| 0 <= j < all.len() implies is_first(found, #[trigger] all[j])
                && kept[j] == found[all[j]] by {
                if j < ks.len() {
                    assert(all[j] == ks[j]);
                }
            }
            assert forall|j: int, m: int| 0 <= j < m < all.len() implies #[trigger] all[j]
                < #[trigger] all[m] by {
                assert(is_first(head, ks[j]));
            }
            assert forall|k: int| #[trigger] is_first(found, k) implies all.contains(k) by {
                if k < last {
                    assert(is_first(head, k));
                    let j = choose|j: int| 0 <= j < ks.len() && ks[j] == k;
                    assert(all[j] == k);
                } else {
                    assert(all[ks.len() as int] == k);
                }
            }
            assert forall|j: int, m: int| 0 <= j < m < kept.len() implies (
            #[trigger] kept[j]).place != (#[trigger] kept[m]).place by {
                if m == before.len() {
                    assert(before[j].place != place);
                }
            }
            assert forall|k: int| 0 <= k < found.len() implies found_at(
                kept,
                (#[trigger] found[k]).place,
            ) by {
                if k < last {
                    assert(found_at(before, head[k].place));
                    let j = choose|j: int|
                        0 <= j < before.len() && (#[trigger] before[j]).place == head[k].place;
                    assert(kept[j] == before[j]);
                } else {
                    assert(kept[before.len() as int].place == place);
                }
            }
            all
        }
    }
}

/// Whether the event `k` is the tag of an element.
pub open spec fn is_tag(d: DocV, k: int) -> bool {
    0 <= k < d.events.len() && (d.events[k].event is Start || d.events[k].event is Empty)
}

/// Whether what has been found is an element of the document, at its place.
pub open spec fn is_element(d: DocV, found: FoundV) -> bool {
    exists|k: int| #[trigger] is_tag(d, k) && found == element_at(d, k)
}

/// Whether only elements of the document have been found.
pub open spec fn only_elements(d: DocV, found: Seq<FoundV>) -> bool {
    forall|j: int| 0 <= j < found.len() ==> is_element(d, #[trigger] found[j])
}

/// Whether a path leads to elements: each of its steps selects elements by their
/// name, their place among the matches or an attribute.
pub open spec fn picks_elements(steps: Seq<StepV>) -> bool {
    forall|k: int|
        0 <= k < steps.len() ==> (#[trigger] steps[k] is Child) && !(
        steps[k] matches StepV::Child { index: IndexV::Count, .. }) && match filter_of(steps[k]) {
            Some(filter) => filter.attr_only is Some,
            None => true,
        }
}

proof fn lemma_picks_rest(steps: Seq<StepV>)
    requires
        picks_elements(steps),
        steps.len() > 0,
    ensures
        picks_elements(steps.subrange(1, steps.len() as int)),
{
    let rest = steps.subrange(1, steps.len() as int);
    assert forall|k: int| 0 <= k < rest.len() implies (#[trigger] rest[k] is Child) && !(
    rest[k] matches StepV::Child { index: IndexV::Count, .. }) && match filter_of(rest[k]) {
        Some(filter) => filter.attr_only is Some,
        None => true,
    } by {
        assert(rest[k] == steps[k + 1]);
        assert(steps[k + 1] is Child);
    }
}

proof fn lemma_one_element(d: DocV, k: int, sink: SinkV)
    requires
        is_tag(d, k),
        only_elements(d, sink.items),
    ensures
        only_elements(d, sink.items.push(element_at(d, k))),
{
    let all = sink.items.push(element_at(d, k));
    assert forall|j: int| 0 <= j < all.len() implies is_element(d, #[trigger] all[j]) by {
        if j < sink.items.len() {
            assert(all[j] == sink.items[j]);
        }
    }
}

proof fn lemma_scan_elements(
    d: DocV,
    i: int,
    steps: Seq<StepV>,
    count: nat,
    known: ReadingsV,
    sink: SinkV,
)
    requires
        steps.len() > 0,
        picks_elements(steps),
        only_elements(d, sink.items),
    ensures
        only_elements(d, scan(d, i, steps, count, known, sink).sink.items),
    decreases steps, d.events.len() - i, 3int,
{
    assert(steps[0] is Child);
    if let StepV::Child { name, index, descendant } = steps[0] {
        if 0 <= i < d.events.len() {
            match d.events[i].event {
                EventV::Start(tag) => if hits(name, tag) {
                    let r = hit(d, i, tag, steps, count + 1, known, sink);
                    let j = onward(d.events, i, r.next);
                    lemma_hit_elements(d, i, tag, steps, count + 1, known, sink);
                    lemma_scan_elements(d, j, steps, count + 1, known, r.sink);
                } else if descendant {
                    let r = enter(d, i + 1, Some(tag), steps, known, sink);
                    let j = onward(d.events, i, r.next);
                    lemma_scan_elements(d, i + 1, steps, 0, known, sink);
                    assert(r == scan(d, i + 1, steps, 0, known, sink));
                    lemma_scan_elements(d, j, steps, count, known, r.sink);
                } else {
                    lemma_scan_elements(d, after(d.events, i, tag), steps, count, known, sink);
                },
                EventV::Empty(tag) => if hits(name, tag) {
                    let r = empty_hit(tag, place_at(d, i), steps, count + 1, known, sink);
                    lemma_empty_elements(d, i, tag, steps, count + 1, known, sink);
                    lemma_scan_elements(d, i + 1, steps, count + 1, known, r.sink);
                } else {
                    lemma_scan_elements(d, i + 1, steps, count, known, sink);
                },
                EventV::End(_) => {},
                EventV::Error => {},
                _ => {
                    lemma_scan_elements(d, i + 1, steps, count, known, sink);
                },
            }
        }
    }
}

proof fn lemma_hit_elements(
    d: DocV,
    i: int,
    tag: TagV,
    steps: Seq<StepV>,
    count: nat,
    known: ReadingsV,
    sink: SinkV,
)
    requires
        0 <= i < d.events.len(),
        d.events[i].event == EventV::Start(tag),
        steps.len() > 0,
        picks_elements(steps),
        only_elements(d, sink.items),
    ensures
        only_elements(d, hit(d, i, tag, steps, count, known, sink).sink.items),
    decreases steps, d.events.len() - i, 2int,
{
    assert(steps[0] is Child);
    let rest = steps.subrange(1, steps.len() as int);
    let r = start_hit(d, i, tag, steps, count, known, sink);
    lemma_picks_rest(steps);
    lemma_descend_elements(d, i, tag, rest, known, sink);
    if let Some(filter) = filter_of(steps[0]) {
        let f = filter_hit(d, i, tag, steps, known, sink);
        if let Some(name) = filter.attr_only {
            let told = sink.ask(attr_test(tag, name, filter, known).1);
            lemma_descend_elements(d, i, tag, rest, known, told);
        }
    }
    assert(only_elements(d, r.sink.items));
    if at_any_depth(steps[0]) {
        let nested = enter(d, i + 1, Some(tag), steps, known, r.sink);
        assert(nested == scan(d, i + 1, steps, 0, known, r.sink));
        lemma_scan_elements(d, i + 1, steps, 0, known, r.sink);
    }
}

proof fn lemma_descend_elements(
    d: DocV,
    i: int,
    tag: TagV,
    rest: Seq<StepV>,
    known: ReadingsV,
    sink: SinkV,
)
    requires
        0 <= i < d.events.len(),
        d.events[i].event == EventV::Start(tag),
        picks_elements(rest),
        only_elements(d, sink.items),
    ensures
        only_elements(d, descend(d, i, tag, rest, known, sink).sink.items),
    decreases rest, d.events.len() - i, 5int,
{
    let r = descend(d, i, tag, rest, known, sink);
    if rest.len() == 0 {
        assert(is_tag(d, i));
        lemma_one_element(d, i, sink);
        assert(r.sink.items == sink.items.push(element_at(d, i)));
    } else {
        assert(rest[0] is Child);
        let nested = enter(d, i + 1, Some(tag), rest, known, sink);
        assert(nested == scan(d, i + 1, rest, 0, known, sink));
        lemma_scan_elements(d, i + 1, rest, 0, known, sink);
    }
}

proof fn lemma_empty_elements(
    d: DocV,
    i: int,
    tag: TagV,
    steps: Seq<StepV>,
    count: nat,
    known: ReadingsV,
    sink: SinkV,
)
    requires
        0 <= i < d.events.len(),
        d.events[i].event == EventV::Empty(tag),
        steps.len() > 0,
        picks_elements(steps),
        only_elements(d, sink.items),
    ensures
        only_elements(
            d,
            empty_hit(tag, place_at(d, i), steps, count, known, sink).sink.items,
        ),
{
    assert(steps[0] is Child);
    let rest = steps.subrange(1, steps.len() as int);
    assert(is_tag(d, i));
    lemma_one_element(d, i, sink);
    if rest.len() > 0 {
        assert(rest[0] == steps[1]);
        assert(steps[1] is Child);
    }
    if let Some(filter) = filter_of(steps[0]) {
        let t = filter_test(empty_element(tag), filter, known, sink);
        assert(t.sink.items == sink.items);
    }
}

/// Whether events are tags of elements, and no two are the same.
pub open spec fn different_tags(d: DocV, ks: Seq<int>) -> bool {
    &&& forall|j: int| 0 <= j < ks.len() ==> is_tag(d, #[trigger] ks[j])
    &&& forall|j: int, m: int| 0 <= j < m < ks.len() ==> #[trigger] ks[j] != #[trigger] ks[m]
}

/// Two tags of a document are never at the same place.
pub proof fn law_places_tell_elements_apart(d: DocV, len: nat, k: int, m: int)
    requires
        ordered(d.events, len),
        is_tag(d, k),
        is_tag(d, m),
        place_at(d, k) == place_at(d, m),
    ensures
        k == m,
{
    let events: Seq<EventAt> = d.events;
    if 0 < k < m {
        assert(events[k - 1].end < events[m - 1].end);
    } else if 0 < m < k {
        assert(events[m - 1].end < events[k - 1].end);
    }
    if k > 0 {
        assert(0 < events[k - 1].end);
    }
    if m > 0 {
        assert(0 < events[m - 1].end);
    }
}

/// A path that leads to elements selects each of them once, whatever stands
/// between its steps and in however many ways it reaches them: `ks` are the tags
/// of the elements, no two the same, and every element that the pass comes to is
/// among them.
pub proof fn law_each_element_is_selected_once(
    d: DocV,
    len: nat,
    i: int,
    current: Option<TagV>,
    steps: Seq<StepV>,
    known: ReadingsV,
) -> (ks: Seq<int>)
    requires
        ordered(d.events, len),
        steps.len() > 0,
        picks_elements(steps),
    ensures
        ({
            let found = enter(d, i, current, steps, known, nothing()).sink.items;
            &&& different_tags(d, ks)
            &&& firsts(found) == elements(d, ks)
            &&& only_elements(d, found)
            &&& forall|k: int|
                #![trigger is_tag(d, k)]
                is_tag(d, k) && found.contains(element_at(d, k)) ==> ks.contains(k)
        }),
{
    assert(steps[0] is Child);
    let r = enter(d, i, current, steps, known, nothing());
    assert(r == scan(d, i, steps, 0, known, nothing()));
    lemma_scan_elements(d, i, steps, 0, known, nothing());
    let found = r.sink.items;
    let kept = firsts(found);
    let at = law_each_place_is_kept_once(found);
    let ks = Seq::new(
        kept.len(),
        |j: int| choose|k: int| #[trigger] is_tag(d, k) && kept[j] == element_at(d, k),
    );
    assert forall|j: int| 0 <= j < ks.len() implies is_tag(d, #[trigger] ks[j]) && kept[j]
        == element_at(d, ks[j]) by {
        assert(is_first(found, at[j]));
        assert(is_element(d, found[at[j]]));
    }
    assert forall|j: int, m: int| 0 <= j < m < ks.len() implies #[trigger] ks[j]
        != #[trigger] ks[m] by {
        assert(kept[j].place != kept[m].place);
    }
    assert(kept =~= elements(d, ks));
    assert forall|k: int|
        #![trigger is_tag(d, k)]
        is_tag(d, k) && found.contains(element_at(d, k)) implies ks.contains(k) by {
        let n = choose|n: int| 0 <= n < found.len() && found[n] == element_at(d, k);
        assert(found_at(kept, found[n].place));
        let j = choose|j: int| 0 <= j < kept.len() && (#[trigger] kept[j]).place == found[n].place;
        law_places_tell_elements_apart(d, len, ks[j], k);
    }
    ks
}

/// Whether of what a pass has found, some is kept: nothing from one place twice,
/// and something from every place.
pub open spec fn one_from_each_place(found: Seq<FoundV>, kept: Seq<FoundV>) -> bool {
    &&& forall|j: int| 0 <= j < kept.len() ==> found.contains(#[trigger] kept[j])
    &&& forall|j: int, m: int|
        0 <= j < m < kept.len() ==> (#[trigger] kept[j]).place != (#[trigger] kept[m]).place
    &&& forall|k: int| 0 <= k < found.len() ==> found_at(kept, (#[trigger] found[k]).place)
}

proof fn lemma_one_from_each_place(found: Seq<FoundV>)
    ensures
        one_from_each_place(found, firsts(found)),
{
    let ks = law_each_place_is_kept_once(found);
    let kept = firsts(found);
    assert forall|j: int| 0 <= j < kept.len() implies found.contains(#[trigger] kept[j]) by {
        assert(is_first(found, ks[j]));
    }
}

/// Whatever a program looks for, the result of its query is what its modifiers
/// make of entries from places that are all different: one from each place at
/// which the program has found something.
pub proof fn law_query_has_each_place_once(program: ProgramV, xml: Seq<u8>, known: ReadingsV)
    requires
        program.steps.len() > 0,
    ensures
        ({
            let found = enter(doc_of(xml), 0, None, program.steps, known, nothing()).sink.items;
            &&& one_from_each_place(found, firsts(found))
            &&& selected(program, xml, known) matches Ok(items) ==> all_modified(
                program.modifiers,
                entries(firsts(found)),
                known,
            ) == Ok::<Seq<ItemV>, ErrorV>(items)
        }),
{
    let r = enter(doc_of(xml), 0, None, program.steps, known, nothing());
    lemma_one_from_each_place(r.sink.items);
}

/// The same holds of every program that runs with others in one pass, of what
/// the pass has collected for it.
pub proof fn law_queries_have_each_place_once(
    programs: Seq<ProgramV>,
    outs: Seq<SinkV>,
    flow: FlowV,
    known: ReadingsV,
    id: int,
)
    requires
        0 <= id < programs.len(),
    ensures
        one_from_each_place(outs[id].items, firsts(outs[id].items)),
        many_outcome(programs, outs, flow, known) matches Ok(lists) ==> all_modified(
            programs[id].modifiers,
            entries(firsts(outs[id].items)),
            known,
        ) == Ok::<Seq<ItemV>, ErrorV>(lists[id]),
{
    lemma_one_from_each_place(outs[id].items);
    lemma_each_modified(programs, outs, known, programs.len(), id);
}

/// A query for elements has each of them once among its entries.
pub proof fn law_query_has_each_element_once(
    program: ProgramV,
    xml: Seq<u8>,
    known: ReadingsV,
) -> (ks: Seq<int>)
    requires
        program.steps.len() > 0,
        program.modifiers.len() == 0,
        picks_elements(program.steps),
    ensures
        ordered(doc_of(xml).events, xml.len()) ==> different_tags(doc_of(xml), ks) && (
        selected(program, xml, known) matches Ok(items) ==> items == entries(
            elements(doc_of(xml), ks),
        )),
{
    let d = doc_of(xml);
    if ordered(d.events, xml.len()) {
        law_each_element_is_selected_once(d, xml.len(), 0, None, program.steps, known)
    } else {
        Seq::empty()
    }
}

} // verus!
