//! What holds of elements that are given by their place in the document.

use vstd::prelude::*;

use crate::engine::ErrorV;
use crate::laws::{lemma_empty_adds, lemma_filter_adds, lemma_hit_adds, lemma_scope_end, plus};
use crate::lockstep::{
    actions, addressable, all_bumped, all_completed, all_explored, ambiguous, any_inside, captured,
    completed, counts_selected, explored, explored_first, explored_from, filtered, fresh, inside,
    kept_as, many_empty, many_read, many_scan, many_scope, many_start, not_terminal, nothing_each,
    one_empty, one_reading, rest_at, starting, state_hits, value_of, values_selected, Action, ManyV,
    StateV,
};
use crate::lockstep_laws::{fits, lemma_inside, lemma_not_terminal, lemma_starting, same_ids};
use crate::many::{asks_of, each_modified, many_outcome, many_selected};
use crate::modifiers::{all_modified, distinct, keyed_items, modified, place, sorted, KeyedV};
use crate::number::ReadingsV;
use crate::path::{Modifier, ProgramV, StepV, TerminalShape};
use crate::semantics::{
    after, at_any_depth, attr_test, child_test, descend, empty_hit, enter, entries, filter_hit,
    filter_of, filter_test, first_tag, firsts, found_at, fragment, hit, hits, nothing, once, onward,
    scan, scope_text, start_hit, within, FoundV, ItemV, SinkV,
};
use crate::text::decimal;
use crate::xml::{doc_at, doc_of, empty_element, place_at, DocV, EventV, TagV};

verus! {

/// Whether no entry is given by its place.
pub open spec fn plain(items: Seq<ItemV>) -> bool {
    forall|k: int| 0 <= k < items.len() ==> #[trigger] items[k] !is ElementRef
}

/// Whether nothing that has been found is given by its place.
pub open spec fn found_plain(found: Seq<FoundV>) -> bool {
    forall|k: int| 0 <= k < found.len() ==> (#[trigger] found[k]).item !is ElementRef
}

/// An entry with the bytes of the document in the place of their place.
pub open spec fn with_bytes(bytes: Seq<u8>, item: ItemV) -> ItemV {
    match item {
        ItemV::ElementRef { start, end } => ItemV::Element(
            bytes.subrange(start as int, end as int),
        ),
        _ => item,
    }
}

/// Entries with the bytes of the document in the place of their places.
pub open spec fn all_resolved(bytes: Seq<u8>, items: Seq<ItemV>) -> Seq<ItemV> {
    Seq::new(items.len(), |k: int| with_bytes(bytes, items[k]))
}

/// What has been found, with the bytes of the document in the place of their
/// places.
pub open spec fn found_resolved(bytes: Seq<u8>, found: Seq<FoundV>) -> Seq<FoundV> {
    Seq::new(
        found.len(),
        |k: int| FoundV { place: found[k].place, item: with_bytes(bytes, found[k].item) },
    )
}

/// Lists of entries with the bytes of the document in the place of their places.
pub open spec fn lists_resolved(bytes: Seq<u8>, lists: Seq<Seq<ItemV>>) -> Seq<Seq<ItemV>> {
    Seq::new(lists.len(), |k: int| all_resolved(bytes, lists[k]))
}

/// What was collected, with the bytes of the document in the place of their
/// places.
pub open spec fn sink_resolved(bytes: Seq<u8>, sink: SinkV) -> SinkV {
    SinkV { items: found_resolved(bytes, sink.items), asked: sink.asked }
}

/// What each program has collected, with the bytes of the document in the place
/// of their places.
pub open spec fn outs_resolved(bytes: Seq<u8>, outs: Seq<SinkV>) -> Seq<SinkV> {
    Seq::new(outs.len(), |k: int| sink_resolved(bytes, outs[k]))
}

proof fn lemma_enter_plain(
    d: DocV,
    i: int,
    current: Option<TagV>,
    steps: Seq<StepV>,
    known: ReadingsV,
    sink: SinkV,
)
    requires
        found_plain(sink.items),
    ensures
        found_plain(enter(d, i, current, steps, known, sink).sink.items),
    decreases steps, d.events.len() - i, 4int,
{
    if steps.len() > 0 && steps[0] is Child {
        lemma_scan_plain(d, i, steps, 0, known, sink);
    }
}

proof fn lemma_scan_plain(
    d: DocV,
    i: int,
    steps: Seq<StepV>,
    count: nat,
    known: ReadingsV,
    sink: SinkV,
)
    requires
        steps.len() > 0,
        found_plain(sink.items),
    ensures
        found_plain(scan(d, i, steps, count, known, sink).sink.items),
    decreases steps, d.events.len() - i, 3int,
{
    if let StepV::Child { name, index, descendant } = steps[0] {
        if 0 <= i < d.events.len() {
            match d.events[i].event {
                EventV::Start(tag) => if hits(name, tag) {
                    let r = hit(d, i, tag, steps, count + 1, known, sink);
                    let j = onward(d.events, i, r.next);
                    lemma_hit_plain(d, i, tag, steps, count + 1, known, sink);
                    lemma_scan_plain(d, j, steps, count + 1, known, r.sink);
                } else if descendant {
                    let r = enter(d, i + 1, Some(tag), steps, known, sink);
                    let j = onward(d.events, i, r.next);
                    lemma_enter_plain(d, i + 1, Some(tag), steps, known, sink);
                    lemma_scan_plain(d, j, steps, count, known, r.sink);
                } else {
                    lemma_scan_plain(d, after(d.events, i, tag), steps, count, known, sink);
                },
                EventV::Empty(tag) => if hits(name, tag) {
                    let r = empty_hit(tag, place_at(d, i), steps, count + 1, known, sink);
                    lemma_empty_plain(tag, place_at(d, i), steps, count + 1, known, sink);
                    lemma_scan_plain(d, i + 1, steps, count + 1, known, r.sink);
                } else {
                    lemma_scan_plain(d, i + 1, steps, count, known, sink);
                },
                EventV::End(_) => {},
                EventV::Error => {},
                _ => {
                    lemma_scan_plain(d, i + 1, steps, count, known, sink);
                },
            }
        }
    }
}

proof fn lemma_hit_plain(
    d: DocV,
    i: int,
    tag: TagV,
    steps: Seq<StepV>,
    count: nat,
    known: ReadingsV,
    sink: SinkV,
)
    requires
        steps.len() > 0,
        found_plain(sink.items),
    ensures
        found_plain(hit(d, i, tag, steps, count, known, sink).sink.items),
    decreases steps, d.events.len() - i, 2int,
{
    let rest = steps.subrange(1, steps.len() as int);
    let r = start_hit(d, i, tag, steps, count, known, sink);
    lemma_descend_plain(d, i, tag, rest, known, sink);
    if filter_of(steps[0]) is Some {
        lemma_filter_plain(d, i, tag, steps, known, sink);
    }
    assert(found_plain(r.sink.items));
    if at_any_depth(steps[0]) && i < d.events.len() {
        lemma_enter_plain(d, i + 1, Some(tag), steps, known, r.sink);
    }
}

proof fn lemma_descend_plain(
    d: DocV,
    i: int,
    tag: TagV,
    rest: Seq<StepV>,
    known: ReadingsV,
    sink: SinkV,
)
    requires
        found_plain(sink.items),
    ensures
        found_plain(descend(d, i, tag, rest, known, sink).sink.items),
    decreases rest, d.events.len() - i, 5int,
{
    if rest.len() > 0 && i < d.events.len() {
        lemma_enter_plain(d, i + 1, Some(tag), rest, known, sink);
    }
}

proof fn lemma_filter_plain(
    d: DocV,
    i: int,
    tag: TagV,
    steps: Seq<StepV>,
    known: ReadingsV,
    sink: SinkV,
)
    requires
        steps.len() > 0,
        found_plain(sink.items),
    ensures
        found_plain(filter_hit(d, i, tag, steps, known, sink).sink.items),
    decreases steps, d.events.len() - i, 0int,
{
    let rest = steps.subrange(1, steps.len() as int);
    if let Some(filter) = filter_of(steps[0]) {
        match filter.attr_only {
            Some(name) => {
                let told = sink.ask(attr_test(tag, name, filter, known).1);
                lemma_descend_plain(d, i, tag, rest, known, told);
            },
            None => {
                let bytes = fragment(d, i, after(d.events, i, tag));
                let t = filter_test(bytes, filter, known, sink);
                assert(t.sink.items == sink.items);
                lemma_within_plain(bytes, place_at(d, i), rest, known, t.sink);
            },
        }
    }
}

proof fn lemma_empty_plain(
    tag: TagV,
    place: nat,
    steps: Seq<StepV>,
    count: nat,
    known: ReadingsV,
    sink: SinkV,
)
    requires
        steps.len() > 0,
        found_plain(sink.items),
    ensures
        found_plain(empty_hit(tag, place, steps, count, known, sink).sink.items),
    decreases steps, 0int, 0int,
{
    let rest = steps.subrange(1, steps.len() as int);
    if let Some(filter) = filter_of(steps[0]) {
        let bytes = empty_element(tag);
        let t = filter_test(bytes, filter, known, sink);
        assert(t.sink.items == sink.items);
    }
}

proof fn lemma_within_plain(
    bytes: Seq<u8>,
    base: nat,
    steps: Seq<StepV>,
    known: ReadingsV,
    sink: SinkV,
)
    requires
        found_plain(sink.items),
    ensures
        found_plain(within(bytes, base, steps, known, sink).sink.items),
    decreases steps, doc_of(bytes).events.len() + 1, 0int,
{
    let d = doc_at(bytes, base);
    if steps.len() > 0 {
        if let Some(k) = first_tag(d.events, 0) {
            if 0 <= k < d.events.len() {
                if let EventV::Start(tag) = d.events[k].event {
                    lemma_enter_plain(d, k + 1, Some(tag), steps, known, sink);
                }
            }
        }
    }
}

/// Adding entries that are not given by their place, and resolving, commute.
proof fn lemma_resolved_plus(bytes: Seq<u8>, a: SinkV, b: SinkV)
    requires
        found_plain(b.items),
    ensures
        sink_resolved(bytes, plus(a, b)) == plus(sink_resolved(bytes, a), b),
{
    assert(sink_resolved(bytes, plus(a, b)).items =~= plus(sink_resolved(bytes, a), b).items);
}

proof fn lemma_resolved_push(bytes: Seq<u8>, a: SinkV, place: nat, item: ItemV)
    ensures
        sink_resolved(bytes, a.push(place, item)) == sink_resolved(bytes, a).push(
            place,
            with_bytes(bytes, item),
        ),
{
    assert(sink_resolved(bytes, a.push(place, item)).items =~= sink_resolved(bytes, a).push(
        place,
        with_bytes(bytes, item),
    ).items);
}

/// Resolving keeps the places that have been found.
proof fn lemma_once_resolved(bytes: Seq<u8>, found: Seq<FoundV>)
    ensures
        firsts(found_resolved(bytes, found)) == found_resolved(bytes, firsts(found)),
        once(found_resolved(bytes, found)) == all_resolved(bytes, once(found)),
    decreases found.len(),
{
    let there = found_resolved(bytes, found);
    if found.len() > 0 {
        let head = found.drop_last();
        lemma_once_resolved(bytes, head);
        assert(there.drop_last() =~= found_resolved(bytes, head));
        let a = firsts(head);
        let b = found_resolved(bytes, a);
        let place = found.last().place;
        if found_at(a, place) {
            let k = choose|k: int| 0 <= k < a.len() && (#[trigger] a[k]).place == place;
            assert(b[k].place == place);
        }
        if found_at(b, place) {
            let k = choose|k: int| 0 <= k < b.len() && (#[trigger] b[k]).place == place;
            assert(a[k].place == place);
        }
        assert(b.push(there.last()) =~= found_resolved(bytes, a.push(found.last())));
    }
    assert(firsts(there) =~= found_resolved(bytes, firsts(found)));
    assert(once(there) =~= all_resolved(bytes, once(found)));
}

/// Where nothing is given by its place, no entry is.
proof fn lemma_once_plain(found: Seq<FoundV>)
    requires
        found_plain(found),
    ensures
        found_plain(firsts(found)),
        plain(once(found)),
    decreases found.len(),
{
    if found.len() > 0 {
        let head = found.drop_last();
        assert(found_plain(head)) by {
            assert forall|k: int| 0 <= k < head.len() implies (
            #[trigger] head[k]).item !is ElementRef by {
                assert(head[k] == found[k]);
            }
        }
        lemma_once_plain(head);
        assert(found[found.len() - 1].item !is ElementRef);
    }
    let kept = firsts(found);
    assert forall|k: int| 0 <= k < once(found).len() implies #[trigger] once(
        found,
    )[k] !is ElementRef by {
        assert(kept[k].item !is ElementRef);
    }
}

/// A program with a filter selects the same, wherever its earlier entries are.
proof fn lemma_filtered_resolved(
    d: DocV,
    i: int,
    tag: TagV,
    program: ProgramV,
    s: StateV,
    known: ReadingsV,
    sink: SinkV,
)
    requires
        s.cursor < program.steps.len(),
        filter_of(program.steps[s.cursor as int]) is Some,
    ensures
        ({
            let a = filtered(d, i, tag, program, s, known, sink);
            let b = filtered(d, i, tag, program, s, known, sink_resolved(d.bytes, sink));
            a.flow == b.flow && sink_resolved(d.bytes, a.sink) == b.sink
        }),
{
    let there = sink_resolved(d.bytes, sink);
    match one_reading(program, s) {
        Some((pred, filter)) => {
            let bytes = fragment(d, i, after(d.events, i, tag));
            let step = rest_at(program, s)[0];
            let shape = program.terminal_shape;
            let (pass, asked) = child_test(bytes, pred, filter, known);
            let base = place_at(d, i);
            let found = within(bytes, base, seq![step], known, nothing()).sink.items;
            let more = found.map_values(|f: FoundV| kept_as(shape, f));
            lemma_within_plain(bytes, base, seq![step], known, nothing());
            assert(found_plain(more)) by {
                assert forall|k: int| 0 <= k < more.len() implies (
                #[trigger] more[k]).item !is ElementRef by {
                    assert(found[k].item !is ElementRef);
                }
            }
            let a = filtered(d, i, tag, program, s, known, sink);
            let b = filtered(d, i, tag, program, s, known, there);
            assert(sink_resolved(d.bytes, a.sink).items =~= b.sink.items);
        },
        None => {
            let steps = program.steps.skip(s.cursor as int);
            assert(steps[0] == program.steps[s.cursor as int]);
            lemma_filter_adds(d, i, tag, steps, known, sink);
            lemma_filter_adds(d, i, tag, steps, known, there);
            lemma_filter_plain(d, i, tag, steps, known, nothing());
            lemma_resolved_plus(
                d.bytes,
                sink,
                filter_hit(d, i, tag, steps, known, nothing()).sink,
            );
        },
    }
}

proof fn lemma_completed_resolved(
    d: DocV,
    i: int,
    j: int,
    tag: TagV,
    program: ProgramV,
    s: StateV,
    act: Action,
    borrowable: bool,
    known: ReadingsV,
    sink: SinkV,
)
    requires
        borrowable ==> addressable(d),
        0 <= i <= d.events.len(),
        0 <= j <= d.events.len(),
        acts_in(program, s, act),
    ensures
        ({
            let a = completed(d, i, j, tag, program, s, act, borrowable, known, sink);
            let b = completed(
                d,
                i,
                j,
                tag,
                program,
                s,
                act,
                false,
                known,
                sink_resolved(d.bytes, sink),
            );
            a.flow == b.flow && a.state == b.state && sink_resolved(d.bytes, a.sink) == b.sink
        }),
{
    match act {
        Action::EmitTerminal => {
            let item = captured(d, i, j, program.terminal_shape, borrowable);
            lemma_resolved_push(d.bytes, sink, place_at(d, i), item);
            lemma_captured_resolved(d, i, j, program.terminal_shape, borrowable);
        },
        Action::CaptureFilter => {
            lemma_filtered_resolved(d, i, tag, program, s, known, sink);
        },
        Action::Search => {
            let steps = program.steps.skip(s.cursor as int);
            let there = sink_resolved(d.bytes, sink);
            lemma_hit_adds(d, i, tag, steps, s.count, known, sink);
            lemma_hit_adds(d, i, tag, steps, s.count, known, there);
            lemma_hit_plain(d, i, tag, steps, s.count, known, nothing());
            lemma_resolved_plus(
                d.bytes,
                sink,
                hit(d, i, tag, steps, s.count, known, nothing()).sink,
            );
        },
        _ => {},
    }
}

/// Whether a program that tests an element or searches it stands at a step that
/// does.
pub open spec fn acts_in(program: ProgramV, s: StateV, act: Action) -> bool {
    &&& act == Action::CaptureFilter ==> s.cursor < program.steps.len() && filter_of(
        program.steps[s.cursor as int],
    ) is Some
    &&& act == Action::Search ==> s.cursor < program.steps.len()
}

proof fn lemma_all_completed_resolved(
    d: DocV,
    i: int,
    j: int,
    tag: TagV,
    programs: Seq<ProgramV>,
    states: Seq<StateV>,
    acts: Seq<Action>,
    borrowable: bool,
    known: ReadingsV,
    outs: Seq<SinkV>,
    n: nat,
)
    requires
        borrowable ==> addressable(d),
        0 <= i <= d.events.len(),
        0 <= j <= d.events.len(),
        fits(programs, states, outs),
        n <= states.len(),
        forall|k: int|
            0 <= k < states.len() ==> acts_in(
                programs[states[k].id as int],
                states[k],
                #[trigger] acts[k],
            ),
    ensures
        ({
            let a = all_completed(
                d,
                i,
                j,
                tag,
                programs,
                states,
                acts,
                borrowable,
                known,
                outs,
                n,
            );
            let b = all_completed(
                d,
                i,
                j,
                tag,
                programs,
                states,
                acts,
                false,
                known,
                outs_resolved(d.bytes, outs),
                n,
            );
            &&& same_ids(a.states, states)
            &&& as_resolved(d, programs, a, b)
            &&& a.next == j
        }),
    decreases n,
{
    if n > 0 {
        lemma_all_completed_resolved(
            d,
            i,
            j,
            tag,
            programs,
            states,
            acts,
            borrowable,
            known,
            outs,
            (n - 1) as nat,
        );
        let a = all_completed(
            d,
            i,
            j,
            tag,
            programs,
            states,
            acts,
            borrowable,
            known,
            outs,
            (n - 1) as nat,
        );
        let s = states[n - 1];
        let id = s.id as int;
        assert(id < programs.len());
        assert(acts_in(programs[id], s, acts[n - 1]));
        if a.flow is Go {
            lemma_completed_resolved(
                d,
                i,
                j,
                tag,
                programs[id],
                s,
                acts[n - 1],
                borrowable,
                known,
                a.outs[id],
            );
            let one = completed(
                d,
                i,
                j,
                tag,
                programs[id],
                s,
                acts[n - 1],
                borrowable,
                known,
                a.outs[id],
            );
            assert(outs_resolved(d.bytes, a.outs.update(id, one.sink)) =~= outs_resolved(
                d.bytes,
                a.outs,
            ).update(id, sink_resolved(d.bytes, one.sink)));
        }
    }
}

/// Whether two parts of a pass differ in no more than that the one gives
/// elements by their place.
pub open spec fn as_resolved(d: DocV, programs: Seq<ProgramV>, a: ManyV, b: ManyV) -> bool {
    &&& a.outs.len() == programs.len()
    &&& b == (ManyV { outs: outs_resolved(d.bytes, a.outs), ..a })
}

proof fn lemma_values_resolved(
    bytes: Seq<u8>,
    current: Option<TagV>,
    place: nat,
    text: Seq<u8>,
    programs: Seq<ProgramV>,
    states: Seq<StateV>,
    outs: Seq<SinkV>,
)
    requires
        fits(programs, states, outs),
    ensures
        values_selected(current, place, text, programs, states, outs).len() == outs.len(),
        outs_resolved(bytes, values_selected(current, place, text, programs, states, outs))
            == values_selected(current, place, text, programs, states, outs_resolved(bytes, outs)),
    decreases states.len(),
{
    if states.len() > 0 {
        let head = states.drop_last();
        assert(fits(programs, head, outs));
        lemma_values_resolved(bytes, current, place, text, programs, head, outs);
        let s = states.last();
        let id = s.id as int;
        assert(states[states.len() - 1].id < programs.len());
        let told = values_selected(current, place, text, programs, head, outs);
        if let Some(value) = value_of(current, text, programs[id], s) {
            lemma_resolved_push(bytes, told[id], place, ItemV::Scalar(value));
            let more = told[id].push(place, ItemV::Scalar(value));
            assert(outs_resolved(bytes, told.update(id, more)) =~= outs_resolved(
                bytes,
                told,
            ).update(id, sink_resolved(bytes, more)));
        }
    }
}

proof fn lemma_counts_resolved(
    bytes: Seq<u8>,
    programs: Seq<ProgramV>,
    states: Seq<StateV>,
    place: nat,
    outs: Seq<SinkV>,
)
    requires
        fits(programs, states, outs),
    ensures
        counts_selected(programs, states, place, outs).len() == outs.len(),
        outs_resolved(bytes, counts_selected(programs, states, place, outs)) == counts_selected(
            programs,
            states,
            place,
            outs_resolved(bytes, outs),
        ),
    decreases states.len(),
{
    if states.len() > 0 {
        let head = states.drop_last();
        assert(fits(programs, head, outs));
        lemma_counts_resolved(bytes, programs, head, place, outs);
        let s = states.last();
        let id = s.id as int;
        assert(states[states.len() - 1].id < programs.len());
        let told = counts_selected(programs, head, place, outs);
        let item = ItemV::Scalar(decimal(s.count));
        lemma_resolved_push(bytes, told[id], place, item);
        let more = told[id].push(place, item);
        assert(outs_resolved(bytes, told.update(id, more)) =~= outs_resolved(bytes, told).update(
            id,
            sink_resolved(bytes, more),
        ));
    }
}

proof fn lemma_many_empty_resolved(
    d: DocV,
    tag: TagV,
    place: nat,
    programs: Seq<ProgramV>,
    states: Seq<StateV>,
    known: ReadingsV,
    outs: Seq<SinkV>,
    n: nat,
)
    requires
        fits(programs, states, outs),
        n <= states.len(),
    ensures
        ({
            let a = many_empty(tag, place, programs, states, known, outs, n);
            let there = outs_resolved(d.bytes, outs);
            let b = many_empty(tag, place, programs, states, known, there, n);
            &&& same_ids(a.states, states)
            &&& as_resolved(d, programs, a, b)
        }),
    decreases n,
{
    if n > 0 {
        lemma_many_empty_resolved(d, tag, place, programs, states, known, outs, (n - 1) as nat);
        let a = many_empty(tag, place, programs, states, known, outs, (n - 1) as nat);
        let s = states[n - 1];
        let id = s.id as int;
        let program = programs[id];
        assert(id < programs.len());
        if a.flow is Go {
            let sink = a.outs[id];
            let one = one_empty(program, s, tag, place, known, sink);
            if state_hits(program, s, tag) {
                let steps = program.steps.skip(s.cursor as int);
                lemma_empty_adds(tag, place, steps, s.count + 1, known, sink);
                lemma_empty_adds(
                    tag,
                    place,
                    steps,
                    s.count + 1,
                    known,
                    sink_resolved(d.bytes, sink),
                );
                lemma_empty_plain(tag, place, steps, s.count + 1, known, nothing());
                lemma_resolved_plus(
                    d.bytes,
                    sink,
                    empty_hit(tag, place, steps, s.count + 1, known, nothing()).sink,
                );
            }
            assert(outs_resolved(d.bytes, a.outs.update(id, one.sink)) =~= outs_resolved(
                d.bytes,
                a.outs,
            ).update(id, sink_resolved(d.bytes, one.sink)));
        }
    }
}

proof fn lemma_same_fits(
    programs: Seq<ProgramV>,
    states: Seq<StateV>,
    outs: Seq<SinkV>,
    now: Seq<StateV>,
    then: Seq<SinkV>,
)
    requires
        fits(programs, states, outs),
        same_ids(now, states),
        then.len() == programs.len(),
    ensures
        fits(programs, now, then),
{
    assert forall|k: int| 0 <= k < now.len() implies (#[trigger] now[k]).id < programs.len() by {
        assert(states[k].id < programs.len());
    }
}

proof fn lemma_scan_resolved(
    d: DocV,
    i: int,
    programs: Seq<ProgramV>,
    states: Seq<StateV>,
    borrowable: bool,
    known: ReadingsV,
    outs: Seq<SinkV>,
)
    requires
        borrowable ==> addressable(d),
        0 <= i <= d.events.len(),
        fits(programs, states, outs),
    ensures
        ({
            let a = many_scan(d, i, programs, states, borrowable, known, outs);
            let b = many_scan(
                d,
                i,
                programs,
                states,
                false,
                known,
                outs_resolved(d.bytes, outs),
            );
            &&& as_resolved(d, programs, a, b)
            &&& 0 <= a.next <= d.events.len()
        }),
    decreases d.events.len() - i, 4int, 0int,
{
    let place = place_at(d, i);
    lemma_counts_resolved(d.bytes, programs, states, place, outs);
    if i < d.events.len() {
        match d.events[i].event {
            EventV::Start(tag) => {
                lemma_start_resolved(d, i, tag, programs, states, borrowable, known, outs);
                let r = many_start(d, i, tag, programs, states, borrowable, known, outs);
                let q = many_start(
                    d,
                    i,
                    tag,
                    programs,
                    states,
                    false,
                    known,
                    outs_resolved(d.bytes, outs),
                );
                if r.flow is Go {
                    lemma_same_fits(programs, states, outs, r.states, r.outs);
                    let next = onward(d.events, i, r.next);
                    lemma_scan_resolved(d, next, programs, r.states, borrowable, known, r.outs);
                }
            },
            EventV::Empty(tag) => {
                let n = states.len();
                lemma_many_empty_resolved(d, tag, place, programs, states, known, outs, n);
                let r = many_empty(tag, place, programs, states, known, outs, states.len());
                lemma_same_fits(programs, states, outs, r.states, r.outs);
                if r.flow is Go {
                    lemma_scan_resolved(d, i + 1, programs, r.states, borrowable, known, r.outs);
                }
            },
            EventV::End(_) => {},
            EventV::Error => {},
            _ => {
                lemma_scan_resolved(d, i + 1, programs, states, borrowable, known, outs);
            },
        }
    }
}

proof fn lemma_scope_resolved(
    d: DocV,
    i: int,
    scoped: bool,
    programs: Seq<ProgramV>,
    states: Seq<StateV>,
    borrowable: bool,
    known: ReadingsV,
    outs: Seq<SinkV>,
)
    requires
        borrowable ==> addressable(d),
        0 <= i <= d.events.len(),
        fits(programs, states, outs),
    ensures
        ({
            let a = many_scope(d, i, scoped, programs, states, borrowable, known, outs);
            let b = many_scope(
                d,
                i,
                scoped,
                programs,
                states,
                false,
                known,
                outs_resolved(d.bytes, outs),
            );
            &&& as_resolved(d, programs, a, b)
            &&& 0 <= a.next <= d.events.len()
        }),
    decreases d.events.len() - i, 5int, 0int,
{
    lemma_scan_resolved(d, i, programs, states, borrowable, known, outs);
    lemma_scope_end(d.events, i, 1);
}

proof fn lemma_read_resolved(
    d: DocV,
    i: int,
    tag: TagV,
    programs: Seq<ProgramV>,
    states: Seq<StateV>,
    borrowable: bool,
    known: ReadingsV,
    outs: Seq<SinkV>,
)
    requires
        borrowable ==> addressable(d),
        0 <= i < d.events.len(),
        fits(programs, states, outs),
    ensures
        ({
            let a = many_read(d, i, tag, programs, states, borrowable, known, outs);
            let b = many_read(
                d,
                i,
                tag,
                programs,
                states,
                false,
                known,
                outs_resolved(d.bytes, outs),
            );
            &&& as_resolved(d, programs, a, b)
            &&& 0 <= a.next <= d.events.len()
            &&& a.flow is Go ==> same_ids(a.states, states)
        }),
    decreases d.events.len() - i, 0int, 0int,
{
    let acts = actions(programs, states, tag);
    let now = all_bumped(programs, states, tag);
    lemma_same_fits(programs, states, outs, now, outs);
    assert forall|k: int| 0 <= k < now.len() implies acts_in(
        programs[now[k].id as int],
        now[k],
        #[trigger] acts[k],
    ) by {}
    let inner = inside(now, acts);
    let text = scope_text(d.events, i + 1, 1);
    let told = values_selected(Some(tag), place_at(d, i), text, programs, inner, outs);
    let children = not_terminal(programs, inner);
    lemma_inside(programs, now, acts, outs, 0);
    lemma_not_terminal(programs, inner, outs, 0);
    lemma_values_resolved(d.bytes, Some(tag), place_at(d, i), text, programs, inner, outs);
    if any_inside(acts) {
        lemma_scope_resolved(d, i + 1, true, programs, children, borrowable, known, told);
        let r = many_scope(d, i + 1, true, programs, children, borrowable, known, told);
        if r.flow is Go {
            lemma_same_fits(programs, states, outs, now, r.outs);
            lemma_all_completed_resolved(
                d,
                i,
                r.next,
                tag,
                programs,
                now,
                acts,
                borrowable,
                known,
                r.outs,
                now.len(),
            );
        }
    } else {
        lemma_all_completed_resolved(
            d,
            i,
            after(d.events, i, tag),
            tag,
            programs,
            now,
            acts,
            borrowable,
            known,
            outs,
            now.len(),
        );
    }
}

proof fn lemma_explored_from_resolved(
    d: DocV,
    i: int,
    tag: TagV,
    programs: Seq<ProgramV>,
    id: nat,
    cursor: nat,
    borrowable: bool,
    known: ReadingsV,
    outs: Seq<SinkV>,
)
    requires
        borrowable ==> addressable(d),
        0 <= i < d.events.len(),
        id < programs.len(),
        outs.len() == programs.len(),
    ensures
        as_resolved(
            d,
            programs,
            explored_from(d, i, tag, programs, id, cursor, borrowable, known, outs),
            explored_from(
                d,
                i,
                tag,
                programs,
                id,
                cursor,
                false,
                known,
                outs_resolved(d.bytes, outs),
            ),
        ),
    decreases d.events.len() - i, 0int, 0int,
{
    let alone = seq![fresh(id, cursor)];
    let text = scope_text(d.events, i + 1, 1);
    let told = values_selected(Some(tag), place_at(d, i), text, programs, alone, outs);
    assert(fits(programs, alone, outs));
    lemma_not_terminal(programs, alone, outs, 0);
    lemma_values_resolved(d.bytes, Some(tag), place_at(d, i), text, programs, alone, outs);
    lemma_scope_resolved(
        d,
        i + 1,
        true,
        programs,
        not_terminal(programs, alone),
        borrowable,
        known,
        told,
    );
}

proof fn lemma_explored_resolved(
    d: DocV,
    i: int,
    j: int,
    tag: TagV,
    programs: Seq<ProgramV>,
    s: StateV,
    borrowable: bool,
    known: ReadingsV,
    outs: Seq<SinkV>,
)
    requires
        borrowable ==> addressable(d),
        0 <= i < d.events.len(),
        0 <= j <= d.events.len(),
        s.id < programs.len(),
        outs.len() == programs.len(),
    ensures
        as_resolved(
            d,
            programs,
            explored(d, i, j, tag, programs, s, borrowable, known, outs),
            explored(d, i, j, tag, programs, s, false, known, outs_resolved(d.bytes, outs)),
        ),
    decreases d.events.len() - i, 1int, 0int,
{
    let id = s.id as int;
    let program = programs[id];
    let there = outs_resolved(d.bytes, outs);
    let first = explored_first(d, i, j, tag, programs, s, borrowable, known, outs);
    let again = explored_first(d, i, j, tag, programs, s, false, known, there);
    if rest_at(program, s).len() == 0 {
        let item = captured(d, i, j, program.terminal_shape, borrowable);
        let sink = outs[id].push(place_at(d, i), item);
        lemma_captured_resolved(d, i, j, program.terminal_shape, borrowable);
        lemma_resolved_push(d.bytes, outs[id], place_at(d, i), item);
        assert(outs_resolved(d.bytes, outs.update(id, sink)) =~= there.update(
            id,
            sink_resolved(d.bytes, sink),
        ));
    } else {
        lemma_explored_from_resolved(
            d,
            i,
            tag,
            programs,
            s.id,
            s.cursor + 1,
            borrowable,
            known,
            outs,
        );
    }
    assert(as_resolved(d, programs, first, again));
    if first.flow is Go {
        lemma_explored_from_resolved(
            d,
            i,
            tag,
            programs,
            s.id,
            s.cursor,
            borrowable,
            known,
            first.outs,
        );
    }
}

proof fn lemma_captured_resolved(
    d: DocV,
    i: int,
    j: int,
    shape: TerminalShape,
    borrowable: bool,
)
    requires
        borrowable ==> addressable(d),
        0 <= i <= d.events.len(),
        0 <= j <= d.events.len(),
    ensures
        with_bytes(d.bytes, captured(d, i, j, shape, borrowable)) == captured(
            d,
            i,
            j,
            shape,
            false,
        ),
{
    if borrowable {
        if i > 0 {
            assert(d.events[i - 1].end <= u32::MAX);
        }
        if j > 0 {
            assert(d.events[j - 1].end <= u32::MAX);
        }
    }
}

proof fn lemma_all_explored_resolved(
    d: DocV,
    i: int,
    j: int,
    tag: TagV,
    programs: Seq<ProgramV>,
    states: Seq<StateV>,
    acts: Seq<Action>,
    borrowable: bool,
    known: ReadingsV,
    outs: Seq<SinkV>,
    n: nat,
)
    requires
        borrowable ==> addressable(d),
        0 <= i < d.events.len(),
        0 <= j <= d.events.len(),
        fits(programs, states, outs),
        n <= states.len(),
    ensures
        as_resolved(
            d,
            programs,
            all_explored(
                d,
                i,
                j,
                tag,
                programs,
                states,
                acts,
                borrowable,
                known,
                outs,
                n,
            ),
            all_explored(
                d,
                i,
                j,
                tag,
                programs,
                states,
                acts,
                false,
                known,
                outs_resolved(d.bytes, outs),
                n,
            ),
        ),
    decreases d.events.len() - i, 2int, n,
{
    if n > 0 {
        let m = (n - 1) as nat;
        lemma_all_explored_resolved(
            d,
            i,
            j,
            tag,
            programs,
            states,
            acts,
            borrowable,
            known,
            outs,
            m,
        );
        let head = all_explored(
            d,
            i,
            j,
            tag,
            programs,
            states,
            acts,
            borrowable,
            known,
            outs,
            m,
        );
        assert(states[n - 1].id < programs.len());
        lemma_explored_resolved(
            d,
            i,
            j,
            tag,
            programs,
            states[n - 1],
            borrowable,
            known,
            head.outs,
        );
    }
}

proof fn lemma_start_resolved(
    d: DocV,
    i: int,
    tag: TagV,
    programs: Seq<ProgramV>,
    states: Seq<StateV>,
    borrowable: bool,
    known: ReadingsV,
    outs: Seq<SinkV>,
)
    requires
        borrowable ==> addressable(d),
        0 <= i < d.events.len(),
        fits(programs, states, outs),
    ensures
        ({
            let a = many_start(d, i, tag, programs, states, borrowable, known, outs);
            let b = many_start(
                d,
                i,
                tag,
                programs,
                states,
                false,
                known,
                outs_resolved(d.bytes, outs),
            );
            &&& as_resolved(d, programs, a, b)
            &&& 0 <= a.next <= d.events.len()
            &&& a.flow is Go ==> same_ids(a.states, states)
        }),
    decreases d.events.len() - i, 3int, 0int,
{
    if ambiguous(programs, states, tag) is None {
        let read = many_read(d, i, tag, programs, states, borrowable, known, outs);
        lemma_read_resolved(d, i, tag, programs, states, borrowable, known, outs);
        if read.flow is Go {
            lemma_same_fits(programs, states, outs, read.states, read.outs);
            lemma_all_explored_resolved(
                d,
                i,
                read.next,
                tag,
                programs,
                read.states,
                actions(programs, states, tag),
                borrowable,
                known,
                read.outs,
                states.len(),
            );
        }
    }
}

proof fn lemma_asks_resolved(bytes: Seq<u8>, outs: Seq<SinkV>)
    ensures
        asks_of(outs_resolved(bytes, outs)) == asks_of(outs),
    decreases outs.len(),
{
    if outs.len() > 0 {
        lemma_asks_resolved(bytes, outs.drop_last());
        assert(outs_resolved(bytes, outs).drop_last() =~= outs_resolved(bytes, outs.drop_last()));
    }
}

/// A pass with places and the pass without end alike.
proof fn lemma_pass_resolved(
    programs: Seq<ProgramV>,
    xml: Seq<u8>,
    borrowable: bool,
    known: ReadingsV,
) -> (a: ManyV)
    requires
        borrowable ==> addressable(doc_of(xml)),
    ensures
        many_selected(programs, xml, borrowable, known) == many_outcome(
            programs,
            a.outs,
            a.flow,
            known,
        ),
        many_selected(programs, xml, false, known) == many_outcome(
            programs,
            outs_resolved(xml, a.outs),
            a.flow,
            known,
        ),
        a.outs.len() == programs.len(),
        !borrowable ==> outs_resolved(xml, a.outs) == a.outs,
{
    let d = doc_of(xml);
    let states = starting(programs, programs.len());
    let none = nothing_each(programs.len());
    let at = lemma_starting(programs, programs.len(), -1);
    assert(fits(programs, states, none));
    lemma_not_terminal(programs, states, none, 0);
    lemma_values_resolved(xml, None, 0, Seq::empty(), programs, states, none);
    let told = values_selected(None, 0, Seq::empty(), programs, states, none);
    let children = not_terminal(programs, states);
    assert(outs_resolved(xml, none) =~= none) by {
        assert(sink_resolved(xml, nothing()).items =~= nothing().items);
    }
    lemma_scope_resolved(d, 0, false, programs, children, borrowable, known, told);
    many_scope(d, 0, false, programs, children, borrowable, known, told)
}

/// A pass that gives elements by their place in the document selects what the
/// pass selects that gives them with their bytes: with the bytes at those places
/// the lists are the same, and so are the errors. No program has modifiers, and
/// every place has an address.
pub proof fn law_places_stand_for_elements(
    programs: Seq<ProgramV>,
    xml: Seq<u8>,
    known: ReadingsV,
)
    requires
        forall|id: int|
            0 <= id < programs.len() ==> (#[trigger] programs[id]).modifiers.len() == 0,
    ensures
        addressable(doc_of(xml)) ==> many_selected(programs, xml, false, known) == match many_selected(
            programs,
            xml,
            true,
            known,
        ) {
            Ok(lists) => Ok(lists_resolved(xml, lists)),
            Err(error) => Err(error),
        },
{
    if addressable(doc_of(xml)) {
        let a = lemma_pass_resolved(programs, xml, true, known);
        lemma_asks_resolved(xml, a.outs);
        lemma_unmodified(programs, a.outs, known, programs.len());
        lemma_unmodified(programs, outs_resolved(xml, a.outs), known, programs.len());
        let lists = Seq::new(programs.len(), |k: int| once(a.outs[k].items));
        let there = Seq::new(
            programs.len(),
            |k: int| once(outs_resolved(xml, a.outs)[k].items),
        );
        assert forall|k: int| 0 <= k < lists.len() implies #[trigger] there[k]
            == all_resolved(xml, lists[k]) by {
            lemma_once_resolved(xml, a.outs[k].items);
        }
        assert(there =~= lists_resolved(xml, lists));
    }
}

proof fn lemma_unmodified(programs: Seq<ProgramV>, outs: Seq<SinkV>, known: ReadingsV, n: nat)
    requires
        n <= programs.len(),
        forall|id: int|
            0 <= id < programs.len() ==> (#[trigger] programs[id]).modifiers.len() == 0,
    ensures
        each_modified(programs, outs, known, n) == Ok::<Seq<Seq<ItemV>>, ErrorV>(
            Seq::new(n, |k: int| once(outs[k].items)),
        ),
    decreases n,
{
    let all = Seq::new(n, |k: int| once(outs[k].items));
    if n > 0 {
        lemma_unmodified(programs, outs, known, (n - 1) as nat);
        assert(programs[n - 1].modifiers.len() == 0);
        assert(all =~= Seq::new((n - 1) as nat, |k: int| once(outs[k].items)).push(
            once(outs[n - 1].items),
        ));
    } else {
        assert(all =~= Seq::empty());
    }
}

proof fn lemma_place_plain(entries: Seq<KeyedV>, entry: KeyedV)
    requires
        plain(keyed_items(entries)),
        entry.item !is ElementRef,
    ensures
        plain(keyed_items(place(entries, entry))),
    decreases entries.len(),
{
    let all = place(entries, entry);
    if entries.len() > 0 && crate::modifiers::sorts_before(entries[0], entry) {
        let rest = entries.skip(1);
        assert(keyed_items(entries)[0] !is ElementRef);
        assert(plain(keyed_items(rest))) by {
            assert forall|k: int| 0 <= k < keyed_items(rest).len() implies #[trigger] keyed_items(
                rest,
            )[k] !is ElementRef by {
                assert(keyed_items(entries)[k + 1] !is ElementRef);
            }
        }
        lemma_place_plain(rest, entry);
        assert forall|k: int| 0 <= k < keyed_items(all).len() implies #[trigger] keyed_items(
            all,
        )[k] !is ElementRef by {
            if k > 0 {
                assert(keyed_items(place(rest, entry))[k - 1] !is ElementRef);
            }
        }
    } else {
        assert forall|k: int| 0 <= k < keyed_items(all).len() implies #[trigger] keyed_items(
            all,
        )[k] !is ElementRef by {
            if k > 0 {
                assert(keyed_items(entries)[k - 1] !is ElementRef);
            }
        }
    }
}

proof fn lemma_sorted_plain(entries: Seq<KeyedV>)
    requires
        plain(keyed_items(entries)),
    ensures
        plain(keyed_items(sorted(entries))),
    decreases entries.len(),
{
    if entries.len() > 0 {
        let rest = entries.skip(1);
        assert(keyed_items(entries)[0] !is ElementRef);
        assert(plain(keyed_items(rest))) by {
            assert forall|k: int| 0 <= k < keyed_items(rest).len() implies #[trigger] keyed_items(
                rest,
            )[k] !is ElementRef by {
                assert(keyed_items(entries)[k + 1] !is ElementRef);
            }
        }
        lemma_sorted_plain(rest);
        lemma_place_plain(sorted(rest), entries[0]);
    }
}

proof fn lemma_distinct_plain(items: Seq<ItemV>)
    requires
        plain(items),
    ensures
        plain(distinct(items)),
    decreases items.len(),
{
    if items.len() > 0 {
        let head = items.drop_last();
        assert(items[items.len() - 1] !is ElementRef);
        assert(plain(head)) by {
            assert forall|k: int| 0 <= k < head.len() implies #[trigger] head[k] !is ElementRef by {
                assert(items[k] !is ElementRef);
            }
        }
        lemma_distinct_plain(head);
    }
}

proof fn lemma_modified_plain(modifier: Modifier, items: Seq<ItemV>, known: ReadingsV)
    requires
        plain(items),
    ensures
        modified(modifier, items, known) matches Ok(next) ==> plain(next),
{
    match modifier {
        Modifier::Sort => {
            let keyed = Seq::new(items.len(), |i: int| crate::modifiers::by_text(items[i]));
            assert(keyed_items(keyed) =~= items);
            lemma_sorted_plain(keyed);
        },
        Modifier::SortNumeric => {
            let nan = crate::modifiers::nan_place(crate::modifiers::numerals(items), known);
            let keyed = Seq::new(
                items.len(),
                |i: int| crate::modifiers::by_number(items[i], known, nan),
            );
            assert(keyed_items(keyed) =~= items);
            lemma_sorted_plain(keyed);
        },
        Modifier::Unique => {
            lemma_distinct_plain(items);
        },
        _ => {},
    }
}

proof fn lemma_all_modified_plain(modifiers: Seq<Modifier>, items: Seq<ItemV>, known: ReadingsV)
    requires
        plain(items),
    ensures
        all_modified(modifiers, items, known) matches Ok(next) ==> plain(next),
    decreases modifiers.len(),
{
    if modifiers.len() > 0 {
        lemma_modified_plain(modifiers[0], items, known);
        if let Ok(next) = modified(modifiers[0], items, known) {
            lemma_all_modified_plain(modifiers.skip(1), next, known);
        }
    }
}

proof fn lemma_each_plain(programs: Seq<ProgramV>, outs: Seq<SinkV>, known: ReadingsV, n: nat)
    requires
        n <= outs.len(),
        forall|k: int| 0 <= k < outs.len() ==> found_plain((#[trigger] outs[k]).items),
    ensures
        each_modified(programs, outs, known, n) matches Ok(lists) ==> forall|k: int|
            0 <= k < lists.len() ==> plain(#[trigger] lists[k]),
    decreases n,
{
    if n > 0 {
        lemma_each_plain(programs, outs, known, (n - 1) as nat);
        assert(found_plain(outs[n - 1].items));
        lemma_once_plain(outs[n - 1].items);
        lemma_all_modified_plain(programs[n - 1].modifiers, once(outs[n - 1].items), known);
    }
}

/// Unless elements are asked for by their place, no entry is a place.
pub proof fn law_no_places_unless_borrowable(
    programs: Seq<ProgramV>,
    xml: Seq<u8>,
    known: ReadingsV,
)
    ensures
        many_selected(programs, xml, false, known) matches Ok(lists) ==> forall|k: int|
            0 <= k < lists.len() ==> plain(#[trigger] lists[k]),
{
    let a = lemma_pass_resolved(programs, xml, false, known);
    assert forall|k: int| 0 <= k < a.outs.len() implies found_plain(
        (#[trigger] a.outs[k]).items,
    ) by {
        let items = a.outs[k].items;
        assert(outs_resolved(xml, a.outs)[k] == a.outs[k]);
        assert(found_resolved(xml, items) == items);
        assert forall|m: int| 0 <= m < items.len() implies (
        #[trigger] items[m]).item !is ElementRef by {
            assert(found_resolved(xml, items)[m] == items[m]);
        }
    }
    lemma_each_plain(programs, a.outs, known, programs.len());
}

} // verus!
