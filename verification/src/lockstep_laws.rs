//! What holds of several programs that run in one pass: each of them selects
//! what it would select alone.

use vstd::prelude::*;

use crate::engine::{outcome, selected, selected_within, ErrorV};
use crate::grammar::compiled;
use crate::laws::{
    law_bare_name_selects_all, law_index_selects_nth_match, law_selection_adds,
    law_skipping_leaves_the_element, lemma_descend_flow, lemma_empty_adds, lemma_enter_flow,
    lemma_enter_next, lemma_filter_adds, lemma_hit_adds, lemma_hit_next, lemma_plus, lemma_plus_ask,
    lemma_plus_push, lemma_scan_adds, lemma_scope_end_out, lemma_within_adds, one_step, plus,
};
use crate::lockstep::{
    action, actions, addressable, all_bumped, all_completed, all_explored, ambiguous, any_child,
    any_inside, bare_before_steps, bumped, captured, completed, counts_selected, explored,
    explored_first, explored_from, filtered, fresh, goes_inside, inside, kept_as, many_empty,
    many_read, many_scan, many_scope, many_start, not_terminal, nothing_each, one_empty,
    one_reading, rest_at, selects_plainly, starting, state_hits, step_at, value_of, values_selected,
    wants_child, Action, ManyV, StateV,
};
use crate::many::{
    asks_of, each_modified, entry_tag, many_outcome, many_selected, many_selected_within,
};
use crate::modifier_laws::{law_modifiers_see_texts, same_text_each};
use crate::modifiers::all_modified;
use crate::number::ReadingsV;
use crate::path::{IndexV, Modifier, ProgramV, StepV, TerminalShape};
use crate::query::{active, got_many, spread};
use crate::semantics::{
    after, descend, empty_hit, enter, entries, filter_hit, filter_of, filter_test, first_tag,
    firsts, found_at, fragment, hit, in_empty, nothing, once, scan, scope_end, scope_text,
    start_hit, text_of, tidy, within, FlowV, FoundV, ItemV, Out, Ran, SinkV,
};
use crate::text::decimal;
use crate::xml::{doc_at, doc_of, place_at, DocV, EventV, TagV};

verus! {

/// Whether every state is one of a program that collects something.
pub open spec fn fits(programs: Seq<ProgramV>, states: Seq<StateV>, outs: Seq<SinkV>) -> bool {
    &&& outs.len() == programs.len()
    &&& forall|j: int| 0 <= j < states.len() ==> (#[trigger] states[j]).id < programs.len()
}

/// Whether no state is one of the program `id`.
pub open spec fn absent(states: Seq<StateV>, id: int) -> bool {
    forall|j: int| 0 <= j < states.len() ==> (#[trigger] states[j]).id != id
}

/// Whether the state `k`, and no other, is one of the program `id`.
pub open spec fn alone(states: Seq<StateV>, k: int, id: int) -> bool {
    &&& 0 <= k < states.len()
    &&& states[k].id == id
    &&& forall|j: int| 0 <= j < states.len() && j != k ==> (#[trigger] states[j]).id != id
}

/// Whether two lists of states are of the same programs.
pub open spec fn same_ids(a: Seq<StateV>, b: Seq<StateV>) -> bool {
    &&& a.len() == b.len()
    &&& forall|j: int| 0 <= j < a.len() ==> (#[trigger] a[j]).id == b[j].id
}

/// Where a program stands inside an element that it looks into.
pub open spec fn led(s: StateV, act: Action) -> StateV {
    if act == Action::Descend {
        fresh(s.id, s.cursor + 1)
    } else {
        fresh(s.id, s.cursor)
    }
}

pub(crate) proof fn lemma_inside(
    programs: Seq<ProgramV>,
    states: Seq<StateV>,
    acts: Seq<Action>,
    outs: Seq<SinkV>,
    id: int,
)
    requires
        fits(programs, states, outs),
    ensures
        fits(programs, inside(states, acts), outs),
        absent(states, id) ==> absent(inside(states, acts), id),
    decreases states.len(),
{
    if states.len() > 0 {
        let head = states.drop_last();
        assert(fits(programs, head, outs));
        lemma_inside(programs, head, acts, outs, id);
        assert(states.last().id < programs.len());
        if absent(states, id) {
            assert(absent(head, id));
            assert(states.last().id != id);
        }
    }
}

/// Where the program of one state stands inside an element: `at` is its place
/// among the programs that look inside.
proof fn lemma_inside_at(states: Seq<StateV>, acts: Seq<Action>, k: int, id: int) -> (at: int)
    requires
        alone(states, k, id),
    ensures
        goes_inside(acts[k]) ==> alone(inside(states, acts), at, id) && inside(states, acts)[at]
            == led(states[k], acts[k]),
        !goes_inside(acts[k]) ==> absent(inside(states, acts), id),
    decreases states.len(),
{
    let head = states.drop_last();
    let s = states.last();
    let before = inside(head, acts);
    let all = inside(states, acts);
    if k == states.len() - 1 {
        assert(absent(head, id));
        lemma_absent_inside(head, acts, id);
        before.len() as int
    } else {
        assert(alone(head, k, id));
        let at = lemma_inside_at(head, acts, k, id);
        assert(s.id != id);
        assert(head[k] == states[k]);
        at
    }
}

proof fn lemma_absent_inside(states: Seq<StateV>, acts: Seq<Action>, id: int)
    requires
        absent(states, id),
    ensures
        absent(inside(states, acts), id),
    decreases states.len(),
{
    if states.len() > 0 {
        assert(absent(states.drop_last(), id));
        lemma_absent_inside(states.drop_last(), acts, id);
        assert(states.last().id != id);
    }
}

/// The program that stands at one place among those that look inside.
proof fn lemma_inside_from(states: Seq<StateV>, acts: Seq<Action>, at: int) -> (k: int)
    requires
        0 <= at < inside(states, acts).len(),
    ensures
        0 <= k < states.len(),
        goes_inside(acts[k]),
        inside(states, acts)[at] == led(states[k], acts[k]),
    decreases states.len(),
{
    let head = inside(states.drop_last(), acts);
    if at < head.len() {
        let k = lemma_inside_from(states.drop_last(), acts, at);
        assert(states.drop_last()[k] == states[k]);
        k
    } else {
        states.len() - 1
    }
}

/// Whether a state looks for an attribute or for text.
pub open spec fn at_value(programs: Seq<ProgramV>, s: StateV) -> bool {
    match step_at(programs[s.id as int], s) {
        Some(StepV::Attribute(_)) => true,
        Some(StepV::Text) => true,
        _ => false,
    }
}

pub(crate) proof fn lemma_not_terminal(programs: Seq<ProgramV>, states: Seq<StateV>, outs: Seq<SinkV>, id: int)
    requires
        fits(programs, states, outs),
    ensures
        fits(programs, not_terminal(programs, states), outs),
        absent(states, id) ==> absent(not_terminal(programs, states), id),
    decreases states.len(),
{
    if states.len() > 0 {
        let head = states.drop_last();
        assert(fits(programs, head, outs));
        lemma_not_terminal(programs, head, outs, id);
        assert(states.last().id < programs.len());
        if absent(states, id) {
            assert(absent(head, id));
            assert(states.last().id != id);
        }
    }
}

proof fn lemma_not_terminal_at(
    programs: Seq<ProgramV>,
    states: Seq<StateV>,
    outs: Seq<SinkV>,
    k: int,
    id: int,
) -> (at: int)
    requires
        fits(programs, states, outs),
        alone(states, k, id),
    ensures
        !at_value(programs, states[k]) ==> alone(not_terminal(programs, states), at, id)
            && not_terminal(programs, states)[at] == states[k],
        at_value(programs, states[k]) ==> absent(not_terminal(programs, states), id),
    decreases states.len(),
{
    let head = states.drop_last();
    let s = states.last();
    let before = not_terminal(programs, head);
    assert(fits(programs, head, outs));
    if k == states.len() - 1 {
        assert(absent(head, id));
        lemma_not_terminal(programs, head, outs, id);
        before.len() as int
    } else {
        assert(alone(head, k, id));
        let at = lemma_not_terminal_at(programs, head, outs, k, id);
        assert(s.id != id);
        assert(head[k] == states[k]);
        at
    }
}

/// The program that stands at one place among those that look for children.
proof fn lemma_not_terminal_from(
    programs: Seq<ProgramV>,
    states: Seq<StateV>,
    at: int,
) -> (k: int)
    requires
        0 <= at < not_terminal(programs, states).len(),
    ensures
        0 <= k < states.len(),
        !at_value(programs, states[k]),
        not_terminal(programs, states)[at] == states[k],
    decreases states.len(),
{
    let head = not_terminal(programs, states.drop_last());
    if at < head.len() {
        let k = lemma_not_terminal_from(programs, states.drop_last(), at);
        assert(states.drop_last()[k] == states[k]);
        k
    } else {
        states.len() - 1
    }
}

/// What a program that looks for an attribute or for text selects.
pub open spec fn value_selected(
    current: Option<TagV>,
    place: nat,
    text: Seq<u8>,
    programs: Seq<ProgramV>,
    s: StateV,
    sink: SinkV,
) -> SinkV {
    match value_of(current, text, programs[s.id as int], s) {
        Some(value) => sink.push(place, ItemV::Scalar(value)),
        None => sink,
    }
}

proof fn lemma_values(
    current: Option<TagV>,
    place: nat,
    text: Seq<u8>,
    programs: Seq<ProgramV>,
    states: Seq<StateV>,
    outs: Seq<SinkV>,
    id: int,
)
    requires
        fits(programs, states, outs),
        0 <= id < programs.len(),
    ensures
        values_selected(current, place, text, programs, states, outs).len() == outs.len(),
        absent(states, id) ==> values_selected(current, place, text, programs, states, outs)[id]
            == outs[id],
        forall|k: int| #[trigger]
            alone(states, k, id) ==> values_selected(
                current,
                place,
                text,
                programs,
                states,
                outs,
            )[id] == value_selected(current, place, text, programs, states[k], outs[id]),
    decreases states.len(),
{
    if states.len() > 0 {
        let head = states.drop_last();
        let last = states.len() - 1;
        assert(fits(programs, head, outs));
        lemma_values(current, place, text, programs, head, outs, id);
        assert(states.last().id < programs.len());
        if absent(states, id) {
            assert(absent(head, id));
            assert(states[last].id != id);
        }
        assert forall|k: int| #[trigger] alone(states, k, id) implies values_selected(
            current,
            place,
            text,
            programs,
            states,
            outs,
        )[id] == value_selected(current, place, text, programs, states[k], outs[id]) by {
            if k == last {
                assert(absent(head, id));
            } else {
                assert(alone(head, k, id));
                assert(states[last].id != id);
            }
        }
    }
}

/// What a program that counts collects at the end of a scope, which is at a
/// place.
pub open spec fn count_selected(
    programs: Seq<ProgramV>,
    s: StateV,
    place: nat,
    sink: SinkV,
) -> SinkV {
    match step_at(programs[s.id as int], s) {
        Some(StepV::Child { index: IndexV::Count, .. }) => sink.push(
            place,
            ItemV::Scalar(decimal(s.count)),
        ),
        _ => sink,
    }
}

proof fn lemma_counts(
    programs: Seq<ProgramV>,
    states: Seq<StateV>,
    place: nat,
    outs: Seq<SinkV>,
    id: int,
)
    requires
        fits(programs, states, outs),
        0 <= id < programs.len(),
    ensures
        counts_selected(programs, states, place, outs).len() == outs.len(),
        absent(states, id) ==> counts_selected(programs, states, place, outs)[id] == outs[id],
        forall|k: int|
            #[trigger] alone(states, k, id) ==> counts_selected(programs, states, place, outs)[id]
                == count_selected(programs, states[k], place, outs[id]),
    decreases states.len(),
{
    if states.len() > 0 {
        let head = states.drop_last();
        let last = states.len() - 1;
        assert(fits(programs, head, outs));
        lemma_counts(programs, head, place, outs, id);
        assert(states.last().id < programs.len());
        if absent(states, id) {
            assert(absent(head, id));
            assert(states[last].id != id);
        }
        assert forall|k: int| #[trigger] alone(states, k, id) implies counts_selected(
            programs,
            states,
            place,
            outs,
        )[id] == count_selected(programs, states[k], place, outs[id]) by {
            if k == last {
                assert(absent(head, id));
            } else {
                assert(alone(head, k, id));
                assert(states[last].id != id);
            }
        }
    }
}

/// Completing an element for the first `n` programs changes the collections of
/// these programs only, each in its own way.
pub(crate) proof fn lemma_completed(
    d: DocV,
    i: int,
    j: int,
    tag: TagV,
    programs: Seq<ProgramV>,
    states: Seq<StateV>,
    acts: Seq<Action>,
    borrowable: bool,
    known: ReadingsV,
    outs: Seq<SinkV>,
    n: nat,
    id: int,
)
    requires
        fits(programs, states, outs),
        0 <= id < programs.len(),
        n <= states.len(),
    ensures
        ({
            let r = all_completed(
                d,
                i,
                j,
                tag,
                programs,
                states,
                acts,
                borrowable,
                known,
                outs,
                n,
            );
            r.flow is Go ==> {
                &&& r.next == j
                &&& same_ids(r.states, states)
                &&& r.outs.len() == outs.len()
                &&& forall|m: int| n <= m < states.len() ==> #[trigger] r.states[m] == states[m]
                &&& absent(states, id) ==> r.outs[id] == outs[id]
                &&& forall|k: int| #[trigger]
                    alone(states, k, id) ==> if k < n {
                        let one = completed(
                            d,
                            i,
                            j,
                            tag,
                            programs[id],
                            states[k],
                            acts[k],
                            borrowable,
                            known,
                            outs[id],
                        );
                        one.flow is Go && r.outs[id] == one.sink && r.states[k] == one.state
                    } else {
                        r.outs[id] == outs[id]
                    }
            }
        }),
    decreases n,
{
    if n > 0 {
        lemma_completed(
            d,
            i,
            j,
            tag,
            programs,
            states,
            acts,
            borrowable,
            known,
            outs,
            (n - 1) as nat,
            id,
        );
        let s = states[n - 1];
        assert(s.id < programs.len());
        if absent(states, id) {
            assert(states[n - 1].id != id);
        }
        assert forall|k: int| alone(states, k, id) && k != n - 1 implies s.id != id by {}
    }
}

/// An empty element changes the collection of each program in its own way.
pub(crate) proof fn lemma_many_empty(
    tag: TagV,
    place: nat,
    programs: Seq<ProgramV>,
    states: Seq<StateV>,
    known: ReadingsV,
    outs: Seq<SinkV>,
    n: nat,
    id: int,
)
    requires
        fits(programs, states, outs),
        0 <= id < programs.len(),
        n <= states.len(),
    ensures
        ({
            let r = many_empty(tag, place, programs, states, known, outs, n);
            r.flow is Go ==> {
                &&& same_ids(r.states, states)
                &&& r.outs.len() == outs.len()
                &&& forall|m: int| n <= m < states.len() ==> #[trigger] r.states[m] == states[m]
                &&& absent(states, id) ==> r.outs[id] == outs[id]
                &&& forall|k: int| #[trigger]
                    alone(states, k, id) ==> if k < n {
                        let one = one_empty(programs[id], states[k], tag, place, known, outs[id]);
                        one.flow is Go && r.outs[id] == one.sink && r.states[k] == one.state
                    } else {
                        r.outs[id] == outs[id]
                    }
            }
        }),
    decreases n,
{
    if n > 0 {
        lemma_many_empty(tag, place, programs, states, known, outs, (n - 1) as nat, id);
        let s = states[n - 1];
        assert(s.id < programs.len());
        if absent(states, id) {
            assert(states[n - 1].id != id);
        }
        assert forall|k: int| alone(states, k, id) && k != n - 1 implies s.id != id by {}
    }
}

/// A bare name before further steps that has led into a child makes the next
/// matching start tag ambiguous.
proof fn lemma_ambiguous(programs: Seq<ProgramV>, states: Seq<StateV>, tag: TagV, k: int)
    requires
        0 <= k < states.len(),
        states[k].count > 0,
        bare_before_steps(programs[states[k].id as int], states[k]),
        state_hits(programs[states[k].id as int], states[k], tag),
    ensures
        ambiguous(programs, states, tag) is Some,
    decreases states.len(),
{
    if k > 0 {
        assert(states.skip(1)[k - 1] == states[k]);
        lemma_ambiguous(programs, states.skip(1), tag, k - 1);
    }
}

/// The program whose name is ambiguous.
proof fn lemma_ambiguous_from(programs: Seq<ProgramV>, states: Seq<StateV>, tag: TagV) -> (k: int)
    requires
        ambiguous(programs, states, tag) is Some,
    ensures
        0 <= k < states.len(),
        is_ambiguous(programs[states[k].id as int], states[k], tag),
        step_at(programs[states[k].id as int], states[k]) matches Some(
            StepV::Child { name, .. },
        ) && ambiguous(programs, states, tag) == Some(name.source()),
    decreases states.len(),
{
    let s = states[0];
    let program = programs[s.id as int];
    if is_ambiguous(program, s, tag) {
        0
    } else {
        1 + lemma_ambiguous_from(programs, states.skip(1), tag)
    }
}

/// Whether an element is a second match of a bare name with further steps
/// behind it.
pub open spec fn is_ambiguous(program: ProgramV, s: StateV, tag: TagV) -> bool {
    s.count > 0 && bare_before_steps(program, s) && state_hits(program, s, tag)
}

/// Whether an entry of a pass of several programs stands for an entry of a
/// pass of one: it is the same, or the place of the element in a document that
/// stays, or the text of the element, or an element that is only counted.
pub open spec fn alike(
    d: DocV,
    shape: TerminalShape,
    borrowable: bool,
    many: ItemV,
    one: ItemV,
) -> bool {
    ||| many == one
    ||| match many {
        ItemV::ElementRef { start, end } => shape == TerminalShape::Element && borrowable && one
            == ItemV::Element(d.bytes.subrange(start as int, end as int)),
        ItemV::Scalar(bytes) => shape == TerminalShape::Count && bytes.len() == 0 && one is Element,
        ItemV::Text(bytes) => shape == TerminalShape::Text && one is Element && bytes == text_of(
            one,
        ),
        ItemV::Element(_) => false,
    }
}

/// Whether the entries of a pass of several programs stand for those of a pass
/// of one.
pub open spec fn all_alike(
    d: DocV,
    shape: TerminalShape,
    borrowable: bool,
    many: Seq<ItemV>,
    one: Seq<ItemV>,
) -> bool {
    &&& many.len() == one.len()
    &&& forall|j: int|
        0 <= j < many.len() ==> alike(d, shape, borrowable, #[trigger] many[j], one[j])
}

/// Whether what a pass of several programs has found stands for what a pass of
/// one has found, at the same places.
pub open spec fn found_alike(
    d: DocV,
    shape: TerminalShape,
    borrowable: bool,
    many: Seq<FoundV>,
    one: Seq<FoundV>,
) -> bool {
    &&& many.len() == one.len()
    &&& forall|j: int|
        0 <= j < many.len() ==> (#[trigger] many[j]).place == one[j].place && alike(
            d,
            shape,
            borrowable,
            many[j].item,
            one[j].item,
        )
}

/// Whether two passes have collected alike.
pub open spec fn like(
    d: DocV,
    shape: TerminalShape,
    borrowable: bool,
    many: SinkV,
    one: SinkV,
) -> bool {
    found_alike(d, shape, borrowable, many.items, one.items) && many.asked == one.asked
}

proof fn lemma_like_plus(
    d: DocV,
    shape: TerminalShape,
    borrowable: bool,
    many: SinkV,
    one: SinkV,
    more_many: SinkV,
    more_one: SinkV,
)
    requires
        like(d, shape, borrowable, many, one),
        like(d, shape, borrowable, more_many, more_one),
    ensures
        like(d, shape, borrowable, plus(many, more_many), plus(one, more_one)),
{
}

/// What was collected since.
pub open spec fn since(before: SinkV, then: SinkV) -> SinkV {
    SinkV {
        items: then.items.skip(before.items.len() as int),
        asked: then.asked.skip(before.asked.len() as int),
    }
}

/// Whether a program has collected, in a pass of several, what stands for `one`.
pub open spec fn grown(
    d: DocV,
    shape: TerminalShape,
    borrowable: bool,
    before: SinkV,
    then: SinkV,
    one: SinkV,
) -> bool {
    then == plus(before, since(before, then)) && like(
        d,
        shape,
        borrowable,
        since(before, then),
        one,
    )
}

proof fn lemma_grown_by(
    d: DocV,
    shape: TerminalShape,
    borrowable: bool,
    before: SinkV,
    more: SinkV,
    one: SinkV,
)
    requires
        like(d, shape, borrowable, more, one),
    ensures
        grown(d, shape, borrowable, before, plus(before, more), one),
{
    let then = plus(before, more);
    assert(since(before, then).items =~= more.items);
    assert(since(before, then).asked =~= more.asked);
}

proof fn lemma_grown_same(
    d: DocV,
    shape: TerminalShape,
    borrowable: bool,
    before: SinkV,
    more: SinkV,
)
    ensures
        grown(d, shape, borrowable, before, plus(before, more), more),
        grown(d, shape, borrowable, before, before, nothing()),
{
    lemma_grown_by(d, shape, borrowable, before, more, more);
    lemma_grown_by(d, shape, borrowable, before, nothing(), nothing());
    lemma_plus(before, nothing(), nothing());
}

proof fn lemma_grown_plus(
    d: DocV,
    shape: TerminalShape,
    borrowable: bool,
    before: SinkV,
    then: SinkV,
    last: SinkV,
    one: SinkV,
    more: SinkV,
)
    requires
        grown(d, shape, borrowable, before, then, one),
        grown(d, shape, borrowable, then, last, more),
    ensures
        grown(d, shape, borrowable, before, last, plus(one, more)),
{
    let a = since(before, then);
    let b = since(then, last);
    lemma_plus(before, a, b);
    lemma_like_plus(d, shape, borrowable, a, one, b, more);
    lemma_grown_by(d, shape, borrowable, before, plus(a, b), plus(one, more));
}

/// The end of a part of a pass, without the place where it ends.
pub open spec fn out_of(r: Ran) -> Out {
    Out { sink: r.sink, flow: r.flow }
}

/// The step that a program looks for, and those behind it.
pub open spec fn steps_at(program: ProgramV, s: StateV) -> Seq<StepV> {
    program.steps.skip(s.cursor as int)
}

/// What a program selects alone, from the event `i` on to the end of the scope.
pub open spec fn alone_from(
    d: DocV,
    i: int,
    program: ProgramV,
    s: StateV,
    known: ReadingsV,
) -> Out {
    if s.done {
        Out { sink: nothing(), flow: FlowV::Go }
    } else {
        out_of(scan(d, i, steps_at(program, s), s.count, known, nothing()))
    }
}

/// What a program selects alone in the element whose start tag is the event `i`.
pub open spec fn part_of(
    d: DocV,
    i: int,
    tag: TagV,
    program: ProgramV,
    s: StateV,
    known: ReadingsV,
) -> Out {
    match action(program, s, tag) {
        Action::Descend => out_of(
            enter(d, i + 1, Some(tag), steps_at(program, s).skip(1), known, nothing()),
        ),
        Action::DescendantFollow => out_of(
            enter(d, i + 1, Some(tag), steps_at(program, s), known, nothing()),
        ),
        Action::EmitTerminal => Out {
            sink: nothing().push(
                place_at(d, i),
                ItemV::Element(fragment(d, i, after(d.events, i, tag))),
            ),
            flow: FlowV::Go,
        },
        Action::CaptureFilter => out_of(
            hit(d, i, tag, steps_at(program, s), s.count + 1, known, nothing()),
        ),
        Action::Explore => out_of(
            hit(d, i, tag, steps_at(program, s), s.count + 1, known, nothing()),
        ),
        Action::Search => out_of(
            hit(d, i, tag, steps_at(program, s), s.count + 1, known, nothing()),
        ),
        _ => Out { sink: nothing(), flow: FlowV::Go },
    }
}

/// Where a program stands behind an element in which it has selected `part`.
pub open spec fn behind(program: ProgramV, s: StateV, tag: TagV, part: Out) -> StateV {
    let now = bumped(program, s, tag);
    StateV { done: now.done || part.flow is Done, ..now }
}

/// First one part, and then the other.
pub open spec fn then(part: Out, next: Out) -> Out {
    Out { sink: plus(part.sink, next.sink), flow: next.flow }
}

proof fn lemma_steps_at(program: ProgramV, s: StateV)
    requires
        wants_child(program, s),
    ensures
        steps_at(program, s).len() > 0,
        steps_at(program, s)[0] == program.steps[s.cursor as int],
        steps_at(program, s).subrange(1, steps_at(program, s).len() as int) == rest_at(program, s),
        steps_at(program, s).skip(1) == rest_at(program, s),
{
    let steps = steps_at(program, s);
    assert(steps.subrange(1, steps.len() as int) =~= rest_at(program, s));
    assert(steps.skip(1) =~= rest_at(program, s));
}

/// An element that is a second match of a bare name ends the pass.
proof fn lemma_alone_ambiguous(
    d: DocV,
    i: int,
    tag: TagV,
    program: ProgramV,
    s: StateV,
    known: ReadingsV,
)
    requires
        0 <= i < d.events.len(),
        d.events[i].event == EventV::Start(tag) || d.events[i].event == EventV::Empty(tag),
        wants_child(program, s),
        is_ambiguous(program, s, tag),
    ensures
        step_at(program, s) matches Some(StepV::Child { name, .. }) && alone_from(
            d,
            i,
            program,
            s,
            known,
        ).flow == FlowV::Ambiguous(name.source()),
{
    lemma_steps_at(program, s);
    let steps = steps_at(program, s);
    if d.events[i].event is Start {
        let h = hit(d, i, tag, steps, s.count + 1, known, nothing());
        let r = start_hit(d, i, tag, steps, s.count + 1, known, nothing());
    } else {
        let r = empty_hit(tag, place_at(d, i), steps, s.count + 1, known, nothing());
    }
}

/// What a program does alone with an element that its step matches.
proof fn lemma_hit_parts(
    d: DocV,
    i: int,
    tag: TagV,
    program: ProgramV,
    s: StateV,
    known: ReadingsV,
)
    requires
        tidy(d.events),
        0 <= i < d.events.len(),
        d.events[i].event == EventV::Start(tag),
        wants_child(program, s),
        state_hits(program, s, tag),
        !is_ambiguous(program, s, tag),
    ensures
        ({
            let r = hit(d, i, tag, steps_at(program, s), s.count + 1, known, nothing());
            let part = part_of(d, i, tag, program, s, known);
            &&& r.sink == part.sink
            &&& r.flow is Ambiguous ==> part.flow == r.flow
            &&& r.flow !is Ambiguous ==> part.flow !is Ambiguous
            &&& (r.flow is Done) == (r.flow !is Ambiguous && behind(program, s, tag, part).done)
        }),
{
    lemma_steps_at(program, s);
    let steps = steps_at(program, s);
    let rest = rest_at(program, s);
    let h = hit(d, i, tag, steps, s.count + 1, known, nothing());
    let r = start_hit(d, i, tag, steps, s.count + 1, known, nothing());
    let q = descend(d, i, tag, rest, known, nothing());
    lemma_descend_flow(d, i, tag, rest, known, nothing());
    lemma_hit_done(d, i, tag, steps, s.count + 1, known, nothing());
}

/// A step is done only where it selects one element by its place or by a filter.
proof fn lemma_hit_done(
    d: DocV,
    i: int,
    tag: TagV,
    steps: Seq<StepV>,
    count: nat,
    known: ReadingsV,
    sink: SinkV,
)
    requires
        steps.len() > 0,
        steps[0] is Child,
    ensures
        hit(d, i, tag, steps, count, known, sink).flow is Done ==> match steps[0] {
            StepV::Child { index: IndexV::Nth(n), .. } => count == n + 1,
            StepV::Child { index: IndexV::FilterFirst(_), .. } => true,
            _ => false,
        },
        hit(d, i, tag, steps, count, known, sink).flow is Go ==> match steps[0] {
            StepV::Child { index: IndexV::Nth(n), .. } => count != n + 1,
            _ => true,
        },
{
    let rest = steps.subrange(1, steps.len() as int);
    let r = start_hit(d, i, tag, steps, count, known, sink);
    lemma_descend_flow(d, i, tag, rest, known, sink);
    lemma_enter_flow(d, i + 1, Some(tag), steps, known, r.sink);
    if let Some(filter) = filter_of(steps[0]) {
        let f = filter_hit(d, i, tag, steps, known, sink);
        match filter.attr_only {
            Some(name) => {
                let told = sink.ask(crate::semantics::attr_test(tag, name, filter, known).1);
                lemma_descend_flow(d, i, tag, rest, known, told);
            },
            None => {
                let bytes = fragment(d, i, after(d.events, i, tag));
                let t = filter_test(bytes, filter, known, sink);
                lemma_within_flow(bytes, place_at(d, i), rest, known, t.sink);
                lemma_test_flow(bytes, filter, known, sink);
            },
        }
    }
}

proof fn lemma_within_flow(
    bytes: Seq<u8>,
    base: nat,
    steps: Seq<StepV>,
    known: ReadingsV,
    sink: SinkV,
)
    ensures
        within(bytes, base, steps, known, sink).flow !is Done,
{
    let d = doc_at(bytes, base);
    if let Some(k) = first_tag(d.events, 0) {
        if let EventV::Start(tag) = d.events[k].event {
            lemma_enter_flow(d, k + 1, Some(tag), steps, known, sink);
        }
    }
}

proof fn lemma_test_flow(
    bytes: Seq<u8>,
    filter: crate::path::FilterV,
    known: ReadingsV,
    sink: SinkV,
)
    ensures
        filter_test(bytes, filter, known, sink).flow !is Done,
{
    lemma_within_flow(
        bytes,
        0,
        filter.path,
        known,
        SinkV { items: Seq::empty(), asked: sink.asked },
    );
}

/// From the start tag of an element on, a program selects alone what it selects
/// in the element, and then what it selects behind it.
proof fn lemma_alone_start(
    d: DocV,
    i: int,
    tag: TagV,
    program: ProgramV,
    s: StateV,
    known: ReadingsV,
)
    requires
        tidy(d.events),
        0 <= i < d.events.len(),
        d.events[i].event == EventV::Start(tag),
        wants_child(program, s),
        !is_ambiguous(program, s, tag),
    ensures
        ({
            let part = part_of(d, i, tag, program, s, known);
            let all = alone_from(d, i, program, s, known);
            let next = alone_from(
                d,
                scope_end(d.events, i + 1, 1),
                program,
                behind(program, s, tag, part),
                known,
            );
            &&& part.flow is Ambiguous ==> all.flow == part.flow
            &&& part.flow !is Ambiguous ==> all == then(part, next)
        }),
{
    lemma_steps_at(program, s);
    let steps = steps_at(program, s);
    let j = scope_end(d.events, i + 1, 1);
    let part = part_of(d, i, tag, program, s, known);
    law_skipping_leaves_the_element(d.events, i, tag);
    lemma_plus(part.sink, nothing(), nothing());
    if !s.done {
        if state_hits(program, s, tag) {
            let r = hit(d, i, tag, steps, s.count + 1, known, nothing());
            lemma_hit_parts(d, i, tag, program, s, known);
            lemma_hit_next(d, i, tag, steps, s.count + 1, known, nothing());
            if r.flow is Go {
                lemma_scan_adds(d, j, steps, s.count + 1, known, r.sink);
            }
        } else if action(program, s, tag) == Action::DescendantFollow {
            let r = enter(d, i + 1, Some(tag), steps, known, nothing());
            lemma_enter_next(d, i + 1, Some(tag), steps, known, nothing());
            lemma_enter_flow(d, i + 1, Some(tag), steps, known, nothing());
            if r.flow is Go {
                lemma_scan_adds(d, j, steps, s.count, known, r.sink);
            }
        } else {
            let next = scan(d, j, steps, s.count, known, nothing());
            lemma_plus(next.sink, nothing(), nothing());
        }
    }
}

/// What a program selects alone in an empty element at a place.
pub open spec fn empty_part(
    program: ProgramV,
    s: StateV,
    tag: TagV,
    place: nat,
    known: ReadingsV,
) -> Out {
    if state_hits(program, s, tag) {
        empty_hit(tag, place, steps_at(program, s), s.count + 1, known, nothing())
    } else {
        Out { sink: nothing(), flow: FlowV::Go }
    }
}

/// Where a program stands behind an empty element.
pub open spec fn behind_empty(program: ProgramV, s: StateV, tag: TagV, part: Out) -> StateV {
    if state_hits(program, s, tag) {
        StateV { count: s.count + 1, done: part.flow is Done, ..s }
    } else {
        s
    }
}

proof fn lemma_alone_empty(
    d: DocV,
    i: int,
    tag: TagV,
    program: ProgramV,
    s: StateV,
    known: ReadingsV,
)
    requires
        0 <= i < d.events.len(),
        d.events[i].event == EventV::Empty(tag),
        wants_child(program, s),
    ensures
        ({
            let part = empty_part(program, s, tag, place_at(d, i), known);
            let all = alone_from(d, i, program, s, known);
            let next = alone_from(d, i + 1, program, behind_empty(program, s, tag, part), known);
            &&& part.flow is Ambiguous ==> all.flow == part.flow
            &&& part.flow !is Ambiguous ==> all == then(part, next)
        }),
{
    lemma_steps_at(program, s);
    let steps = steps_at(program, s);
    let part = empty_part(program, s, tag, place_at(d, i), known);
    lemma_plus(part.sink, nothing(), nothing());
    if !s.done {
        if state_hits(program, s, tag) {
            if part.flow is Go {
                lemma_scan_adds(d, i + 1, steps, s.count + 1, known, part.sink);
            }
        } else {
            let next = scan(d, i + 1, steps, s.count, known, nothing());
            lemma_plus(next.sink, nothing(), nothing());
        }
    }
}

/// A program whose step by name and place comes last selects elements, and asks
/// for nothing.
proof fn lemma_plain_within(bytes: Seq<u8>, base: nat, step: StepV, known: ReadingsV)
    requires
        selects_plainly(step),
    ensures
        ({
            let r = within(bytes, base, seq![step], known, nothing());
            &&& r.flow is Go
            &&& r.sink.asked == Seq::<Seq<char>>::empty()
            &&& forall|k: int|
                0 <= k < r.sink.items.len() ==> (#[trigger] r.sink.items[k]).item is Element
        }),
{
    let d = doc_at(bytes, base);
    let one = seq![step];
    if let StepV::Child { name, index, .. } = step {
        assert(one =~= one_step(name, index));
        if let Some(k) = first_tag(d.events, 0) {
            if let EventV::Start(tag) = d.events[k].event {
                let r = enter(d, k + 1, Some(tag), one, known, nothing());
                assert(r == scan(d, k + 1, one, 0, known, nothing()));
                match index {
                    IndexV::Nth(n) => {
                        law_index_selects_nth_match(d, k + 1, 0, name, n, known, nothing());
                    },
                    _ => {
                        law_bare_name_selects_all(d, k + 1, 0, name, index, known, nothing());
                    },
                }
            }
        }
    }
}

/// A program that tests a candidate and selects in it in one reading does what
/// it does in two: one for its filter, and one for the steps behind it.
pub proof fn law_one_reading_as_two(
    d: DocV,
    i: int,
    tag: TagV,
    program: ProgramV,
    s: StateV,
    borrowable: bool,
    known: ReadingsV,
    sink: SinkV,
)
    requires
        wants_child(program, s),
        filter_of(program.steps[s.cursor as int]) is Some,
    ensures
        ({
            let r = filtered(d, i, tag, program, s, known, sink);
            let one = filter_hit(d, i, tag, steps_at(program, s), known, nothing());
            &&& r.flow == one.flow
            &&& grown(d, program.terminal_shape, borrowable, sink, r.sink, one.sink)
        }),
{
    lemma_steps_at(program, s);
    let steps = steps_at(program, s);
    let shape = program.terminal_shape;
    let one = filter_hit(d, i, tag, steps, known, nothing());
    match one_reading(program, s) {
        Some((pred, filter)) => {
            let j = after(d.events, i, tag);
            let bytes = fragment(d, i, j);
            let rest = rest_at(program, s);
            let step = rest[0];
            assert(rest =~= seq![step]);
            let base = place_at(d, i);
            lemma_plain_within(bytes, base, step, known);
            let found = within(bytes, base, rest, known, nothing());
            let asked = crate::semantics::child_test(bytes, pred, filter, known).1;
            let told = nothing().ask(asked);
            let t = filter_test(bytes, filter, known, nothing());
            assert(t.sink == told);
            lemma_within_adds(bytes, base, rest, known, told);
            lemma_plus_ask(sink, asked);
            if t.pass {
                let kept = found.sink.items.map_values(|f: FoundV| kept_as(shape, f));
                let more = SinkV { items: kept, asked };
                assert(one.sink == plus(told, found.sink));
                assert(one.sink.items =~= found.sink.items);
                assert(one.sink.asked =~= asked);
                assert(like(d, shape, borrowable, more, one.sink)) by {
                    assert forall|m: int| 0 <= m < kept.len() implies (
                    #[trigger] kept[m]).place == one.sink.items[m].place && alike(
                        d,
                        shape,
                        borrowable,
                        kept[m].item,
                        one.sink.items[m].item,
                    ) by {
                        assert(found.sink.items[m].item is Element);
                        assert(kept[m] == kept_as(shape, found.sink.items[m]));
                    }
                }
                lemma_grown_by(d, shape, borrowable, sink, more, one.sink);
                let r = filtered(d, i, tag, program, s, known, sink);
                assert(r.sink.items =~= plus(sink, more).items);
                assert(r.sink.asked =~= plus(sink, more).asked);
            } else {
                lemma_grown_same(d, shape, borrowable, sink, told);
            }
        },
        None => {
            lemma_filter_adds(d, i, tag, steps, known, sink);
            lemma_grown_same(d, shape, borrowable, sink, one.sink);
        },
    }
}

/// Completing an element for a program gives what it selects in it alone.
proof fn lemma_completed_alone(
    d: DocV,
    i: int,
    tag: TagV,
    program: ProgramV,
    s: StateV,
    borrowable: bool,
    known: ReadingsV,
    sink: SinkV,
)
    requires
        tidy(d.events),
        borrowable ==> addressable(d),
        0 <= i < d.events.len(),
        d.events[i].event == EventV::Start(tag),
        wants_child(program, s),
        !goes_inside(action(program, s, tag)),
        action(program, s, tag) != Action::Explore,
    ensures
        ({
            let j = scope_end(d.events, i + 1, 1);
            let now = bumped(program, s, tag);
            let act = action(program, s, tag);
            let part = part_of(d, i, tag, program, s, known);
            let one = completed(d, i, j, tag, program, now, act, borrowable, known, sink);
            &&& part.flow is Ambiguous ==> one.flow == part.flow
            &&& part.flow !is Ambiguous ==> {
                &&& one.flow is Go
                &&& one.state == behind(program, s, tag, part)
                &&& grown(d, program.terminal_shape, borrowable, sink, one.sink, part.sink)
            }
        }),
{
    lemma_steps_at(program, s);
    let steps = steps_at(program, s);
    let shape = program.terminal_shape;
    let j = scope_end(d.events, i + 1, 1);
    let now = bumped(program, s, tag);
    let part = part_of(d, i, tag, program, s, known);
    law_skipping_leaves_the_element(d.events, i, tag);
    lemma_grown_same(d, shape, borrowable, sink, part.sink);
    match action(program, s, tag) {
        Action::EmitTerminal => {
            let item = captured(d, i, j, shape, borrowable);
            let place = place_at(d, i);
            let more = nothing().push(place, item);
            let element = ItemV::Element(fragment(d, i, j));
            lemma_plus_push(sink, place, item);
            lemma_plus_push(nothing(), place, item);
            lemma_plus_push(nothing(), place, element);
            assert(alike(d, shape, borrowable, item, element)) by {
                if borrowable && shape == TerminalShape::Element {
                    if i > 0 {
                        assert(d.events[i - 1].end <= u32::MAX);
                    }
                    assert(d.events[j - 1].end <= u32::MAX);
                }
            }
            assert(like(d, shape, borrowable, more, part.sink));
            lemma_grown_by(d, shape, borrowable, sink, more, part.sink);
        },
        Action::CaptureFilter => {
            assert(steps_at(program, now) == steps);
            assert(rest_at(program, now) == rest_at(program, s));
            law_one_reading_as_two(d, i, tag, program, now, borrowable, known, sink);
            let h = hit(d, i, tag, steps, s.count + 1, known, nothing());
            let r = start_hit(d, i, tag, steps, s.count + 1, known, nothing());
        },
        Action::Search => {
            lemma_hit_adds(d, i, tag, steps, s.count + 1, known, sink);
        },
        _ => {},
    }
}

/// Whether every state is one of a program that looks for a child element, and
/// no two are of the same program.
pub open spec fn settled(programs: Seq<ProgramV>, states: Seq<StateV>, outs: Seq<SinkV>) -> bool {
    &&& fits(programs, states, outs)
    &&& forall|k: int|
        0 <= k < states.len() ==> {
            let s = #[trigger] states[k];
            &&& alone(states, k, s.id as int)
            &&& wants_child(programs[s.id as int], s)
            &&& s.done ==> !counts(programs[s.id as int], s)
        }
}

/// Whether a program counts elements.
pub open spec fn counts(program: ProgramV, s: StateV) -> bool {
    step_at(program, s) matches Some(StepV::Child { index: IndexV::Count, .. })
}

/// Whether a program has collected, in a pass of several, what it has collected
/// alone.
pub open spec fn together(
    d: DocV,
    programs: Seq<ProgramV>,
    borrowable: bool,
    id: int,
    before: Seq<SinkV>,
    outs: Seq<SinkV>,
    one: Out,
) -> bool {
    one.flow is Go && grown(
        d,
        programs[id].terminal_shape,
        borrowable,
        before[id],
        outs[id],
        one.sink,
    )
}

/// Whether a part of a pass of several programs ends for each of them as it ends
/// for it alone: `ones` are the programs alone. It ends early exactly where one
/// of them does.
pub open spec fn in_step(
    d: DocV,
    programs: Seq<ProgramV>,
    states: Seq<StateV>,
    borrowable: bool,
    before: Seq<SinkV>,
    many: ManyV,
    ones: Seq<Out>,
) -> bool {
    match many.flow {
        FlowV::Go => {
            &&& many.outs.len() == before.len()
            &&& forall|id: int|
                0 <= id < before.len() && absent(states, id) ==> #[trigger] many.outs[id]
                    == before[id]
            &&& forall|k: int|
                0 <= k < states.len() ==> together(
                    d,
                    programs,
                    borrowable,
                    states[k].id as int,
                    before,
                    many.outs,
                    #[trigger] ones[k],
                )
        },
        FlowV::Done => false,
        FlowV::Ambiguous(_) => exists|k: int|
            0 <= k < states.len() && (#[trigger] ones[k]).flow == many.flow,
    }
}

/// What the programs select alone from the event `i` on.
pub open spec fn alone_each(
    d: DocV,
    i: int,
    programs: Seq<ProgramV>,
    states: Seq<StateV>,
    known: ReadingsV,
) -> Seq<Out> {
    Seq::new(
        states.len(),
        |k: int| alone_from(d, i, programs[states[k].id as int], states[k], known),
    )
}

/// What the programs select alone in an element.
pub open spec fn part_each(
    d: DocV,
    i: int,
    tag: TagV,
    programs: Seq<ProgramV>,
    states: Seq<StateV>,
    known: ReadingsV,
) -> Seq<Out> {
    Seq::new(
        states.len(),
        |k: int| part_of(d, i, tag, programs[states[k].id as int], states[k], known),
    )
}

/// What the programs select alone as they enter an element.
pub open spec fn enter_each(
    d: DocV,
    i: int,
    current: Option<TagV>,
    programs: Seq<ProgramV>,
    states: Seq<StateV>,
    known: ReadingsV,
) -> Seq<Out> {
    Seq::new(
        states.len(),
        |k: int|
            out_of(
                enter(
                    d,
                    i,
                    current,
                    steps_at(programs[states[k].id as int], states[k]),
                    known,
                    nothing(),
                ),
            ),
    )
}

/// The program that ends the completion of an element early.
proof fn lemma_completed_from(
    d: DocV,
    i: int,
    j: int,
    tag: TagV,
    programs: Seq<ProgramV>,
    states: Seq<StateV>,
    acts: Seq<Action>,
    borrowable: bool,
    known: ReadingsV,
    outs: Seq<SinkV>,
    n: nat,
) -> (k: int)
    requires
        fits(programs, states, outs),
        forall|k: int| 0 <= k < states.len() ==> alone(states, k, (#[trigger] states[k]).id as int),
        n <= states.len(),
        all_completed(
            d,
            i,
            j,
            tag,
            programs,
            states,
            acts,
            borrowable,
            known,
            outs,
            n,
        ).flow !is Go,
    ensures
        0 <= k < n,
        completed(
            d,
            i,
            j,
            tag,
            programs[states[k].id as int],
            states[k],
            acts[k],
            borrowable,
            known,
            outs[states[k].id as int],
        ).flow == all_completed(
            d,
            i,
            j,
            tag,
            programs,
            states,
            acts,
            borrowable,
            known,
            outs,
            n,
        ).flow,
    decreases n,
{
    if n == 0 {
        0
    } else {
        let m = (n - 1) as nat;
        let head = all_completed(
            d,
            i,
            j,
            tag,
            programs,
            states,
            acts,
            borrowable,
            known,
            outs,
            m,
        );
        if head.flow is Go {
            let id = states[n - 1].id as int;
            assert(alone(states, n - 1, id));
            lemma_completed(
                d,
                i,
                j,
                tag,
                programs,
                states,
                acts,
                borrowable,
                known,
                outs,
                m,
                id,
            );
            n - 1
        } else {
            lemma_completed_from(
                d,
                i,
                j,
                tag,
                programs,
                states,
                acts,
                borrowable,
                known,
                outs,
                m,
            )
        }
    }
}

/// The program that ends the reading of an empty element early.
proof fn lemma_empty_from(
    tag: TagV,
    place: nat,
    programs: Seq<ProgramV>,
    states: Seq<StateV>,
    known: ReadingsV,
    outs: Seq<SinkV>,
    n: nat,
) -> (k: int)
    requires
        fits(programs, states, outs),
        forall|k: int| 0 <= k < states.len() ==> alone(states, k, (#[trigger] states[k]).id as int),
        n <= states.len(),
        many_empty(tag, place, programs, states, known, outs, n).flow !is Go,
    ensures
        0 <= k < n,
        one_empty(
            programs[states[k].id as int],
            states[k],
            tag,
            place,
            known,
            outs[states[k].id as int],
        ).flow == many_empty(tag, place, programs, states, known, outs, n).flow,
    decreases n,
{
    if n == 0 {
        0
    } else {
        let m = (n - 1) as nat;
        if many_empty(tag, place, programs, states, known, outs, m).flow is Go {
            let id = states[n - 1].id as int;
            assert(alone(states, n - 1, id));
            lemma_many_empty(tag, place, programs, states, known, outs, m, id);
            n - 1
        } else {
            lemma_empty_from(tag, place, programs, states, known, outs, m)
        }
    }
}

/// Programs that stay in step in one part of a pass, and in the next, stay in
/// step in both.
proof fn lemma_in_step_then(
    d: DocV,
    programs: Seq<ProgramV>,
    states: Seq<StateV>,
    borrowable: bool,
    before: Seq<SinkV>,
    now: Seq<StateV>,
    mid: Seq<SinkV>,
    many: ManyV,
    parts: Seq<Out>,
    nexts: Seq<Out>,
    ones: Seq<Out>,
)
    requires
        same_ids(now, states),
        mid.len() == before.len(),
        forall|id: int|
            0 <= id < before.len() && absent(states, id) ==> #[trigger] mid[id] == before[id],
        forall|k: int|
            0 <= k < states.len() ==> grown(
                d,
                programs[states[k].id as int].terminal_shape,
                borrowable,
                before[states[k].id as int],
                mid[states[k].id as int],
                (#[trigger] parts[k]).sink,
            ),
        forall|k: int|
            0 <= k < states.len() ==> #[trigger] ones[k] == then(parts[k], nexts[k]),
        in_step(d, programs, now, borrowable, mid, many, nexts),
    ensures
        in_step(d, programs, states, borrowable, before, many, ones),
{
    match many.flow {
        FlowV::Go => {
            assert forall|id: int|
                0 <= id < before.len() && absent(states, id) implies #[trigger] many.outs[id]
                == before[id] by {
                assert(absent(now, id)) by {
                    assert forall|p: int| 0 <= p < now.len() implies (#[trigger] now[p]).id
                        != id by {
                        assert(states[p].id != id);
                    }
                }
                assert(mid[id] == before[id]);
            }
            assert forall|k: int| 0 <= k < states.len() implies together(
                d,
                programs,
                borrowable,
                states[k].id as int,
                before,
                many.outs,
                #[trigger] ones[k],
            ) by {
                let id = states[k].id as int;
                assert(now[k].id == id);
                assert(together(
                    d,
                    programs,
                    borrowable,
                    now[k].id as int,
                    mid,
                    many.outs,
                    nexts[k],
                ));
                lemma_grown_plus(
                    d,
                    programs[id].terminal_shape,
                    borrowable,
                    before[id],
                    mid[id],
                    many.outs[id],
                    parts[k].sink,
                    nexts[k].sink,
                );
            }
        },
        FlowV::Ambiguous(_) => {
            let k = choose|k: int| 0 <= k < now.len() && (#[trigger] nexts[k]).flow == many.flow;
            assert(ones[k].flow == many.flow);
        },
        FlowV::Done => {},
    }
}

/// Several programs that read on to the end of a scope select what each of them
/// selects alone.
proof fn lemma_scan_together(
    d: DocV,
    i: int,
    programs: Seq<ProgramV>,
    states: Seq<StateV>,
    borrowable: bool,
    known: ReadingsV,
    outs: Seq<SinkV>,
)
    requires
        tidy(d.events),
        borrowable ==> addressable(d),
        0 <= i <= d.events.len(),
        settled(programs, states, outs),
    ensures
        ({
            let r = many_scan(d, i, programs, states, borrowable, known, outs);
            &&& in_step(
                d,
                programs,
                states,
                borrowable,
                outs,
                r,
                alone_each(d, i, programs, states, known),
            )
            &&& r.flow is Go ==> r.next == scope_end(d.events, i, 1)
        }),
    decreases d.events.len() - i, 5int, 0int,
{
    if i < d.events.len() {
        assert(d.events[i].event !is Error);
        match d.events[i].event {
            EventV::Start(tag) => {
                lemma_scan_start(d, i, tag, programs, states, borrowable, known, outs);
            },
            EventV::Empty(tag) => {
                lemma_scan_empty(d, i, tag, programs, states, borrowable, known, outs);
            },
            EventV::End(_) => {
                lemma_scan_end(d, i, programs, states, borrowable, known, outs);
            },
            _ => {
                lemma_scan_together(d, i + 1, programs, states, borrowable, known, outs);
                assert(alone_each(d, i, programs, states, known) =~= alone_each(
                    d,
                    i + 1,
                    programs,
                    states,
                    known,
                )) by {
                    assert forall|k: int| 0 <= k < states.len() implies alone_from(
                        d,
                        i,
                        programs[states[k].id as int],
                        #[trigger] states[k],
                        known,
                    ) == alone_from(
                        d,
                        i + 1,
                        programs[states[k].id as int],
                        states[k],
                        known,
                    ) by {
                        lemma_steps_at(programs[states[k].id as int], states[k]);
                    }
                }
            },
        }
    } else {
        lemma_scan_end(d, i, programs, states, borrowable, known, outs);
    }
}

/// At the end of a scope the counts are collected.
proof fn lemma_scan_end(
    d: DocV,
    i: int,
    programs: Seq<ProgramV>,
    states: Seq<StateV>,
    borrowable: bool,
    known: ReadingsV,
    outs: Seq<SinkV>,
)
    requires
        0 <= i <= d.events.len(),
        i < d.events.len() ==> d.events[i].event is End,
        settled(programs, states, outs),
    ensures
        ({
            let r = many_scan(d, i, programs, states, borrowable, known, outs);
            &&& in_step(
                d,
                programs,
                states,
                borrowable,
                outs,
                r,
                alone_each(d, i, programs, states, known),
            )
            &&& r.flow is Go ==> r.next == scope_end(d.events, i, 1)
        }),
{
    let r = many_scan(d, i, programs, states, borrowable, known, outs);
    let ones = alone_each(d, i, programs, states, known);
    let place = place_at(d, i);
    if programs.len() > 0 {
        lemma_counts(programs, states, place, outs, 0);
    }
    assert(states.len() > 0 ==> programs.len() > 0) by {
        if states.len() > 0 {
            assert(states[0].id < programs.len());
        }
    }
    assert(programs.len() == 0 ==> r.outs == outs) by {
        assert(programs.len() == 0 ==> states.len() == 0);
    }
    assert forall|id: int| 0 <= id < outs.len() && absent(states, id) implies #[trigger] r.outs[id]
        == outs[id] by {
        lemma_counts(programs, states, place, outs, id);
    }
    assert forall|k: int| 0 <= k < states.len() implies together(
        d,
        programs,
        borrowable,
        states[k].id as int,
        outs,
        r.outs,
        #[trigger] ones[k],
    ) by {
        let s = states[k];
        let id = s.id as int;
        let program = programs[id];
        assert(alone(states, k, id));
        lemma_counts(programs, states, place, outs, id);
        lemma_steps_at(program, s);
        let item = ItemV::Scalar(decimal(s.count));
        let more = nothing().push(place, item);
        lemma_plus_push(outs[id], place, item);
        lemma_plus_push(nothing(), place, item);
        lemma_grown_same(d, program.terminal_shape, borrowable, outs[id], more);
    }
}

/// An empty element, and what comes behind it.
proof fn lemma_scan_empty(
    d: DocV,
    i: int,
    tag: TagV,
    programs: Seq<ProgramV>,
    states: Seq<StateV>,
    borrowable: bool,
    known: ReadingsV,
    outs: Seq<SinkV>,
)
    requires
        tidy(d.events),
        borrowable ==> addressable(d),
        0 <= i < d.events.len(),
        d.events[i].event == EventV::Empty(tag),
        settled(programs, states, outs),
    ensures
        ({
            let r = many_scan(d, i, programs, states, borrowable, known, outs);
            &&& in_step(
                d,
                programs,
                states,
                borrowable,
                outs,
                r,
                alone_each(d, i, programs, states, known),
            )
            &&& r.flow is Go ==> r.next == scope_end(d.events, i, 1)
        }),
    decreases d.events.len() - i, 4int, 0int,
{
    let place = place_at(d, i);
    let m = many_empty(tag, place, programs, states, known, outs, states.len());
    let ones = alone_each(d, i, programs, states, known);
    assert forall|k: int| 0 <= k < states.len() implies alone(
        states,
        k,
        (#[trigger] states[k]).id as int,
    ) by {}
    if m.flow is Go {
        assert forall|k: int| 0 <= k < states.len() implies empty_done(
            d,
            programs,
            states,
            tag,
            place,
            borrowable,
            known,
            outs,
            m,
            k,
        ) by {
            lemma_empty_done(d, programs, states, tag, place, borrowable, known, outs, k);
        }
        if states.len() > 0 {
            lemma_many_empty(
                tag,
                place,
                programs,
                states,
                known,
                outs,
                states.len(),
                states[0].id as int,
            );
        }
        assert(settled(programs, m.states, m.outs)) by {
            assert forall|k: int| 0 <= k < m.states.len() implies ({
                let s = #[trigger] m.states[k];
                &&& s.id < programs.len()
                &&& alone(m.states, k, s.id as int)
                &&& wants_child(programs[s.id as int], s)
                &&& s.done ==> !counts(programs[s.id as int], s)
            }) by {
                assert(empty_done(d, programs, states, tag, place, borrowable, known, outs, m, k));
                assert(alone(states, k, states[k].id as int));
                assert(alone(m.states, k, m.states[k].id as int)) by {
                    assert forall|j: int| 0 <= j < m.states.len() && j != k implies (
                    #[trigger] m.states[j]).id != m.states[k].id by {
                        assert(empty_done(d, programs, states, tag, place, borrowable, known, outs, m, j));
                    }
                }
            }
        }
        lemma_scan_together(d, i + 1, programs, m.states, borrowable, known, m.outs);
        let r = many_scan(d, i + 1, programs, m.states, borrowable, known, m.outs);
        let nexts = alone_each(d, i + 1, programs, m.states, known);
        assert forall|k: int| 0 <= k < states.len() implies #[trigger] ones[k] == then(
            empty_part(programs[states[k].id as int], states[k], tag, place, known),
            nexts[k],
        ) by {
            assert(empty_done(d, programs, states, tag, place, borrowable, known, outs, m, k));
            lemma_alone_empty(d, i, tag, programs[states[k].id as int], states[k], known);
        }
        let parts = Seq::new(
            states.len(),
            |k: int| empty_part(programs[states[k].id as int], states[k], tag, place, known),
        );
        assert forall|id: int| 0 <= id < outs.len() && absent(states, id) implies #[trigger] m.outs[id]
            == outs[id] by {
            lemma_many_empty(tag, place, programs, states, known, outs, states.len(), id);
        }
        assert forall|k: int| 0 <= k < states.len() implies grown(
            d,
            programs[states[k].id as int].terminal_shape,
            borrowable,
            outs[states[k].id as int],
            m.outs[states[k].id as int],
            (#[trigger] parts[k]).sink,
        ) by {
            assert(empty_done(d, programs, states, tag, place, borrowable, known, outs, m, k));
        }
        assert(same_ids(m.states, states)) by {
            assert forall|k: int| 0 <= k < m.states.len() implies (#[trigger] m.states[k]).id
                == states[k].id by {
                assert(empty_done(d, programs, states, tag, place, borrowable, known, outs, m, k));
            }
        }
        lemma_in_step_then(
            d,
            programs,
            states,
            borrowable,
            outs,
            m.states,
            m.outs,
            r,
            parts,
            nexts,
            ones,
        );
    } else {
        let k = lemma_empty_from(tag, place, programs, states, known, outs, states.len());
        let id = states[k].id as int;
        let s = states[k];
        lemma_steps_at(programs[id], s);
        lemma_empty_adds(tag, place, steps_at(programs[id], s), s.count + 1, known, outs[id]);
        lemma_alone_empty(d, i, tag, programs[id], s, known);
        assert(ones[k].flow == m.flow);
    }
}

/// What reading an empty element does for the program of the state `k`.
pub open spec fn empty_done(
    d: DocV,
    programs: Seq<ProgramV>,
    states: Seq<StateV>,
    tag: TagV,
    place: nat,
    borrowable: bool,
    known: ReadingsV,
    outs: Seq<SinkV>,
    m: ManyV,
    k: int,
) -> bool {
    let id = states[k].id as int;
    let part = empty_part(programs[id], states[k], tag, place, known);
    &&& m.states.len() == states.len()
    &&& m.outs.len() == outs.len()
    &&& m.states[k].id == id
    &&& m.states[k] == behind_empty(programs[id], states[k], tag, part)
    &&& part.flow !is Ambiguous
    &&& wants_child(programs[id], m.states[k])
    &&& m.states[k].done ==> !counts(programs[id], m.states[k])
    &&& grown(
        d,
        programs[id].terminal_shape,
        borrowable,
        outs[id],
        m.outs[id],
        part.sink,
    )
}

proof fn lemma_empty_done(
    d: DocV,
    programs: Seq<ProgramV>,
    states: Seq<StateV>,
    tag: TagV,
    place: nat,
    borrowable: bool,
    known: ReadingsV,
    outs: Seq<SinkV>,
    k: int,
)
    requires
        settled(programs, states, outs),
        0 <= k < states.len(),
        many_empty(tag, place, programs, states, known, outs, states.len()).flow is Go,
    ensures
        empty_done(
            d,
            programs,
            states,
            tag,
            place,
            borrowable,
            known,
            outs,
            many_empty(tag, place, programs, states, known, outs, states.len()),
            k,
        ),
{
    let s = states[k];
    let id = s.id as int;
    let program = programs[id];
    let steps = steps_at(program, s);
    assert(alone(states, k, id));
    lemma_many_empty(tag, place, programs, states, known, outs, states.len(), id);
    lemma_steps_at(program, s);
    let part = empty_part(program, s, tag, place, known);
    lemma_grown_same(d, program.terminal_shape, borrowable, outs[id], part.sink);
    if state_hits(program, s, tag) {
        lemma_empty_adds(tag, place, steps, s.count + 1, known, outs[id]);
        lemma_empty_hit_done(tag, place, steps, s.count + 1, known, nothing());
    }
}

proof fn lemma_empty_hit_done(
    tag: TagV,
    place: nat,
    steps: Seq<StepV>,
    count: nat,
    known: ReadingsV,
    sink: SinkV,
)
    requires
        steps.len() > 0,
    ensures
        empty_hit(tag, place, steps, count, known, sink).flow is Done ==> !(
        steps[0] matches StepV::Child { index: IndexV::Count, .. }),
{
}

/// An element, and what comes behind it.
proof fn lemma_scan_start(
    d: DocV,
    i: int,
    tag: TagV,
    programs: Seq<ProgramV>,
    states: Seq<StateV>,
    borrowable: bool,
    known: ReadingsV,
    outs: Seq<SinkV>,
)
    requires
        tidy(d.events),
        borrowable ==> addressable(d),
        0 <= i < d.events.len(),
        d.events[i].event == EventV::Start(tag),
        settled(programs, states, outs),
    ensures
        ({
            let r = many_scan(d, i, programs, states, borrowable, known, outs);
            &&& in_step(
                d,
                programs,
                states,
                borrowable,
                outs,
                r,
                alone_each(d, i, programs, states, known),
            )
            &&& r.flow is Go ==> r.next == scope_end(d.events, i, 1)
        }),
    decreases d.events.len() - i, 4int, 0int,
{
    let m = many_start(d, i, tag, programs, states, borrowable, known, outs);
    let ones = alone_each(d, i, programs, states, known);
    let parts = part_each(d, i, tag, programs, states, known);
    let j = scope_end(d.events, i + 1, 1);
    law_skipping_leaves_the_element(d.events, i, tag);
    lemma_scope_end_out(d.events, i + 1, 1);
    match ambiguous(programs, states, tag) {
        Some(name) => {
            let k = lemma_ambiguous_from(programs, states, tag);
            lemma_alone_ambiguous(d, i, tag, programs[states[k].id as int], states[k], known);
            assert(ones[k].flow == m.flow);
        },
        None => {
            lemma_start_together(d, i, tag, programs, states, borrowable, known, outs);
            assert forall|k: int| 0 <= k < states.len() implies !is_ambiguous(
                programs[states[k].id as int],
                #[trigger] states[k],
                tag,
            ) by {
                if is_ambiguous(programs[states[k].id as int], states[k], tag) {
                    lemma_ambiguous(programs, states, tag, k);
                }
            }
            if m.flow is Go {
                lemma_scan_together(d, j, programs, m.states, borrowable, known, m.outs);
                let r = many_scan(d, j, programs, m.states, borrowable, known, m.outs);
                let nexts = alone_each(d, j, programs, m.states, known);
                assert forall|k: int| 0 <= k < states.len() implies #[trigger] ones[k] == then(
                    parts[k],
                    nexts[k],
                ) by {
                    assert(start_done(d, programs, states, tag, borrowable, outs, m, parts, k));
                    lemma_alone_start(d, i, tag, programs[states[k].id as int], states[k], known);
                }
                assert(same_ids(m.states, states)) by {
                    assert forall|k: int| 0 <= k < m.states.len() implies (
                    #[trigger] m.states[k]).id == states[k].id by {
                        assert(start_done(d, programs, states, tag, borrowable, outs, m, parts, k));
                    }
                }
                assert forall|k: int| 0 <= k < states.len() implies grown(
                    d,
                    programs[states[k].id as int].terminal_shape,
                    borrowable,
                    outs[states[k].id as int],
                    m.outs[states[k].id as int],
                    (#[trigger] parts[k]).sink,
                ) by {
                    assert(start_done(d, programs, states, tag, borrowable, outs, m, parts, k));
                }
                lemma_in_step_then(
                    d,
                    programs,
                    states,
                    borrowable,
                    outs,
                    m.states,
                    m.outs,
                    r,
                    parts,
                    nexts,
                    ones,
                );
            } else {
                let k = choose|k: int|
                    0 <= k < states.len() && (#[trigger] parts[k]).flow == m.flow;
                lemma_alone_start(d, i, tag, programs[states[k].id as int], states[k], known);
                assert(ones[k].flow == m.flow);
            }
        },
    }
}

/// What reading an element does for the program of the state `k`.
pub open spec fn start_done(
    d: DocV,
    programs: Seq<ProgramV>,
    states: Seq<StateV>,
    tag: TagV,
    borrowable: bool,
    outs: Seq<SinkV>,
    m: ManyV,
    parts: Seq<Out>,
    k: int,
) -> bool {
    let id = states[k].id as int;
    &&& m.states[k] == behind(programs[id], states[k], tag, parts[k])
    &&& parts[k].flow !is Ambiguous
    &&& grown(
        d,
        programs[id].terminal_shape,
        borrowable,
        outs[id],
        m.outs[id],
        parts[k].sink,
    )
}

/// Where a program stands inside an element that it looks into, and what it
/// selects there alone.
proof fn lemma_led(
    d: DocV,
    i: int,
    tag: TagV,
    program: ProgramV,
    s: StateV,
    known: ReadingsV,
)
    requires
        wants_child(program, s),
        goes_inside(action(program, s, tag)),
    ensures
        ({
            let t = led(bumped(program, s, tag), action(program, s, tag));
            &&& t.id == s.id
            &&& t == fresh(t.id, t.cursor)
            &&& t.cursor < program.steps.len()
            &&& out_of(enter(d, i + 1, Some(tag), steps_at(program, t), known, nothing()))
                == part_of(d, i, tag, program, s, known)
            &&& behind(program, s, tag, part_of(d, i, tag, program, s, known)) == bumped(
                program,
                s,
                tag,
            )
        }),
{
    lemma_steps_at(program, s);
    let t = led(bumped(program, s, tag), action(program, s, tag));
    let steps = steps_at(program, s);
    lemma_enter_flow(d, i + 1, Some(tag), steps, known, nothing());
    lemma_enter_flow(d, i + 1, Some(tag), steps.skip(1), known, nothing());
    if action(program, s, tag) == Action::Descend {
        assert(steps.skip(1) =~= steps_at(program, t));
    } else {
        assert(steps =~= steps_at(program, t));
    }
}

/// What reading through an element does for the program of the state `k`.
pub open spec fn read_done(
    d: DocV,
    programs: Seq<ProgramV>,
    states: Seq<StateV>,
    tag: TagV,
    borrowable: bool,
    outs: Seq<SinkV>,
    m: ManyV,
    parts: Seq<Out>,
    k: int,
) -> bool {
    let id = states[k].id as int;
    if action(programs[id], states[k], tag) == Action::Explore {
        &&& m.states[k] == bumped(programs[id], states[k], tag)
        &&& m.outs[id] == outs[id]
    } else {
        start_done(d, programs, states, tag, borrowable, outs, m, parts, k)
    }
}

/// Several programs select, while they read through an element, what each of
/// them selects in it alone; those that explore it have not yet done so.
#[verifier::rlimit(40)]
proof fn lemma_read_together(
    d: DocV,
    i: int,
    tag: TagV,
    programs: Seq<ProgramV>,
    states: Seq<StateV>,
    borrowable: bool,
    known: ReadingsV,
    outs: Seq<SinkV>,
)
    requires
        tidy(d.events),
        borrowable ==> addressable(d),
        0 <= i < d.events.len(),
        d.events[i].event == EventV::Start(tag),
        settled(programs, states, outs),
    ensures
        ({
            let m = many_read(d, i, tag, programs, states, borrowable, known, outs);
            let parts = part_each(d, i, tag, programs, states, known);
            &&& m.flow is Go ==> {
                &&& m.next == scope_end(d.events, i + 1, 1)
                &&& m.states.len() == states.len()
                &&& m.outs.len() == outs.len()
                &&& settled(programs, m.states, m.outs)
                &&& forall|id: int|
                    0 <= id < outs.len() && absent(states, id) ==> #[trigger] m.outs[id] == outs[id]
                &&& forall|k: int|
                    0 <= k < states.len() ==> #[trigger] read_done(
                        d,
                        programs,
                        states,
                        tag,
                        borrowable,
                        outs,
                        m,
                        parts,
                        k,
                    )
            }
            &&& m.flow !is Go ==> m.flow is Ambiguous && exists|k: int|
                0 <= k < states.len() && (#[trigger] parts[k]).flow == m.flow
        }),
    decreases d.events.len() - i, 0int, 0int,
{
    let acts = actions(programs, states, tag);
    let now = all_bumped(programs, states, tag);
    let parts = part_each(d, i, tag, programs, states, known);
    let j = scope_end(d.events, i + 1, 1);
    let inner = inside(now, acts);
    let text = scope_text(d.events, i + 1, 1);
    let m = many_read(d, i, tag, programs, states, borrowable, known, outs);
    law_skipping_leaves_the_element(d.events, i, tag);
    assert(fits(programs, now, outs)) by {
        assert forall|k: int| 0 <= k < now.len() implies (#[trigger] now[k]).id < programs.len() by {
            assert(states[k].id < programs.len());
        }
    }
    assert forall|k: int| 0 <= k < now.len() implies alone(
        now,
        k,
        (#[trigger] now[k]).id as int,
    ) by {
        assert(alone(states, k, states[k].id as int));
        assert forall|p: int| 0 <= p < now.len() && p != k implies (#[trigger] now[p]).id
            != now[k].id by {
            assert(states[p].id != states[k].id);
        }
    }
    let r = if any_inside(acts) {
        many_scope(
            d,
            i + 1,
            true,
            programs,
            not_terminal(programs, inner),
            borrowable,
            known,
            values_selected(Some(tag), place_at(d, i), text, programs, inner, outs),
        )
    } else {
        ManyV { next: j, states: now, outs, flow: FlowV::Go }
    };
    lemma_inner_fresh(d, i, tag, programs, states, outs, known);
    if any_inside(acts) {
        lemma_scope_together(d, i + 1, tag, programs, inner, borrowable, known, outs);
    }
    let entered = enter_each(d, i + 1, Some(tag), programs, inner, known);
    if r.flow is Go {
        let c = all_completed(
            d,
            i,
            j,
            tag,
            programs,
            now,
            acts,
            borrowable,
            known,
            r.outs,
            now.len(),
        );
        assert(m == c);
        assert forall|k: int| 0 <= k < states.len() implies inner_done(
            d,
            programs,
            states,
            acts,
            borrowable,
            outs,
            r.outs,
            parts,
            k,
        ) by {
            let s = states[k];
            let id = s.id as int;
            assert(alone(now, k, now[k].id as int));
            let at = lemma_inside_at(now, acts, k, id);
            if goes_inside(acts[k]) {
                assert(any_inside(acts));
                lemma_led(d, i, tag, programs[id], s, known);
                assert(inner[at] == led(now[k], acts[k]));
                assert(entered[at] == parts[k]);
                assert(together(
                    d,
                    programs,
                    borrowable,
                    inner[at].id as int,
                    outs,
                    r.outs,
                    entered[at],
                ));
            } else if any_inside(acts) {
                assert(absent(inner, id));
            }
        }
        assert(fits(programs, now, r.outs));
        if c.flow is Go {
            assert forall|k: int| 0 <= k < states.len() implies #[trigger] read_done(
                d,
                programs,
                states,
                tag,
                borrowable,
                outs,
                m,
                parts,
                k,
            ) && m.states[k].id == states[k].id && m.states[k].cursor == states[k].cursor
                && m.states.len() == states.len() && m.outs.len() == outs.len() && (
            m.states[k].done ==> !counts(programs[states[k].id as int], m.states[k])) by {
                let s = states[k];
                let id = s.id as int;
                assert(inner_done(
                    d,
                    programs,
                    states,
                    acts,
                    borrowable,
                    outs,
                    r.outs,
                    parts,
                    k,
                ));
                assert(alone(now, k, now[k].id as int));
                lemma_completed(
                    d,
                    i,
                    j,
                    tag,
                    programs,
                    now,
                    acts,
                    borrowable,
                    known,
                    r.outs,
                    now.len(),
                    id,
                );
                if goes_inside(acts[k]) {
                    lemma_led(d, i, tag, programs[id], s, known);
                } else if acts[k] != Action::Explore {
                    lemma_completed_alone(
                        d,
                        i,
                        tag,
                        programs[id],
                        s,
                        borrowable,
                        known,
                        r.outs[id],
                    );
                }
                lemma_never_counts(d, i, tag, programs[id], s, known);
            }
            if now.len() > 0 {
                lemma_completed(
                    d,
                    i,
                    j,
                    tag,
                    programs,
                    now,
                    acts,
                    borrowable,
                    known,
                    r.outs,
                    now.len(),
                    now[0].id as int,
                );
            }
            assert(settled(programs, m.states, m.outs)) by {
                assert forall|k: int| 0 <= k < m.states.len() implies ({
                    let s = #[trigger] m.states[k];
                    &&& s.id < programs.len()
                    &&& alone(m.states, k, s.id as int)
                    &&& wants_child(programs[s.id as int], s)
                    &&& s.done ==> !counts(programs[s.id as int], s)
                }) by {
                    assert(read_done(d, programs, states, tag, borrowable, outs, m, parts, k));
                    assert(alone(states, k, states[k].id as int));
                    assert forall|p: int| 0 <= p < m.states.len() && p != k implies (
                    #[trigger] m.states[p]).id != m.states[k].id by {
                        assert(read_done(d, programs, states, tag, borrowable, outs, m, parts, p));
                        assert(states[p].id != states[k].id);
                    }
                }
            }
            assert forall|id: int|
                0 <= id < outs.len() && absent(states, id) implies #[trigger] m.outs[id]
                == outs[id] by {
                assert(absent(now, id)) by {
                    assert forall|p: int| 0 <= p < now.len() implies (#[trigger] now[p]).id
                        != id by {
                        assert(states[p].id != id);
                    }
                }
                lemma_completed(
                    d,
                    i,
                    j,
                    tag,
                    programs,
                    now,
                    acts,
                    borrowable,
                    known,
                    r.outs,
                    now.len(),
                    id,
                );
                if any_inside(acts) {
                    lemma_absent_inside(now, acts, id);
                    assert(r.outs[id] == outs[id]);
                }
            }
        } else {
            let k = lemma_completed_from(
                d,
                i,
                j,
                tag,
                programs,
                now,
                acts,
                borrowable,
                known,
                r.outs,
                now.len(),
            );
            let s = states[k];
            let id = s.id as int;
            if !goes_inside(acts[k]) && acts[k] != Action::Explore {
                lemma_completed_alone(
                    d,
                    i,
                    tag,
                    programs[id],
                    s,
                    borrowable,
                    known,
                    r.outs[id],
                );
            }
            assert(parts[k].flow == m.flow);
        }
    } else {
        let at = choose|at: int| 0 <= at < inner.len() && (#[trigger] entered[at]).flow == r.flow;
        let k = lemma_inside_from(now, acts, at);
        lemma_led(d, i, tag, programs[states[k].id as int], states[k], known);
        assert(entered[at] == parts[k]);
        assert(parts[k].flow == m.flow);
    }
}

/// A program that explores an element by itself, from one of its steps on,
/// selects what it selects there alone.
proof fn lemma_explored_from(
    d: DocV,
    i: int,
    tag: TagV,
    programs: Seq<ProgramV>,
    id: nat,
    cursor: nat,
    borrowable: bool,
    known: ReadingsV,
    outs: Seq<SinkV>,
)
    requires
        tidy(d.events),
        borrowable ==> addressable(d),
        0 <= i < d.events.len(),
        id < programs.len(),
        outs.len() == programs.len(),
        cursor < programs[id as int].steps.len(),
    ensures
        ({
            let r = explored_from(d, i, tag, programs, id, cursor, borrowable, known, outs);
            let one = enter(
                d,
                i + 1,
                Some(tag),
                programs[id as int].steps.skip(cursor as int),
                known,
                nothing(),
            );
            alone_changed(d, programs, borrowable, id as int, outs, r, out_of(one))
        }),
    decreases d.events.len() - i, 0int, 0int,
{
    let alone_states = seq![fresh(id, cursor)];
    assert(starts(programs, alone_states, outs)) by {
        assert(alone(alone_states, 0, id as int));
    }
    lemma_scope_together(d, i + 1, tag, programs, alone_states, borrowable, known, outs);
    let r = explored_from(d, i, tag, programs, id, cursor, borrowable, known, outs);
    let ones = enter_each(d, i + 1, Some(tag), programs, alone_states, known);
    assert(alone_states[0] == fresh(id, cursor));
    if r.flow is Go {
        assert(together(
            d,
            programs,
            borrowable,
            alone_states[0].id as int,
            outs,
            r.outs,
            ones[0],
        ));
        assert forall|k: int| 0 <= k < outs.len() && k != id implies #[trigger] r.outs[k]
            == outs[k] by {
            assert(absent(alone_states, k));
        }
    } else {
        let k = choose|k: int| 0 <= k < alone_states.len() && (#[trigger] ones[k]).flow == r.flow;
        assert(k == 0);
    }
}

/// Whether a part of a pass has changed what one program has collected, and that
/// as it would have alone.
pub open spec fn alone_changed(
    d: DocV,
    programs: Seq<ProgramV>,
    borrowable: bool,
    id: int,
    before: Seq<SinkV>,
    many: ManyV,
    one: Out,
) -> bool {
    match many.flow {
        FlowV::Go => {
            &&& one.flow is Go
            &&& many.outs.len() == before.len()
            &&& forall|k: int|
                0 <= k < before.len() && k != id ==> #[trigger] many.outs[k] == before[k]
            &&& grown(
                d,
                programs[id].terminal_shape,
                borrowable,
                before[id],
                many.outs[id],
                one.sink,
            )
        },
        FlowV::Done => false,
        FlowV::Ambiguous(_) => one.flow == many.flow,
    }
}

/// Exploring an element gives a program what it selects in it alone.
proof fn lemma_explored_alone(
    d: DocV,
    i: int,
    tag: TagV,
    programs: Seq<ProgramV>,
    s: StateV,
    t: StateV,
    borrowable: bool,
    known: ReadingsV,
    outs: Seq<SinkV>,
)
    requires
        tidy(d.events),
        borrowable ==> addressable(d),
        0 <= i < d.events.len(),
        d.events[i].event == EventV::Start(tag),
        s.id < programs.len(),
        outs.len() == programs.len(),
        wants_child(programs[s.id as int], s),
        action(programs[s.id as int], s, tag) == Action::Explore,
        t.id == s.id,
        t.cursor == s.cursor,
    ensures
        ({
            let j = scope_end(d.events, i + 1, 1);
            let r = explored(d, i, j, tag, programs, t, borrowable, known, outs);
            let part = part_of(d, i, tag, programs[s.id as int], s, known);
            alone_changed(d, programs, borrowable, s.id as int, outs, r, part)
        }),
    decreases d.events.len() - i, 1int, 0int,
{
    let id = s.id as int;
    let program = programs[id];
    let shape = program.terminal_shape;
    let steps = steps_at(program, s);
    let rest = rest_at(program, s);
    let j = scope_end(d.events, i + 1, 1);
    lemma_steps_at(program, s);
    law_skipping_leaves_the_element(d.events, i, tag);
    let part = part_of(d, i, tag, program, s, known);
    let h = hit(d, i, tag, steps, s.count + 1, known, nothing());
    let one = start_hit(d, i, tag, steps, s.count + 1, known, nothing());
    assert(one == descend(d, i, tag, rest, known, nothing()));
    let first = explored_first(d, i, j, tag, programs, t, borrowable, known, outs);
    assert(rest_at(program, t) == rest);
    if rest.len() == 0 {
        let item = captured(d, i, j, shape, borrowable);
        let element = ItemV::Element(fragment(d, i, j));
        let place = place_at(d, i);
        let more = nothing().push(place, item);
        lemma_plus_push(outs[id], place, item);
        lemma_captured_alike(d, i, j, shape, borrowable);
        assert(one.sink == nothing().push(place, element));
        assert(like(d, shape, borrowable, more, one.sink));
        lemma_grown_by(d, shape, borrowable, outs[id], more, one.sink);
    } else {
        lemma_explored_from(
            d,
            i,
            tag,
            programs,
            s.id,
            s.cursor + 1,
            borrowable,
            known,
            outs,
        );
        assert(program.steps.skip(s.cursor as int + 1) =~= rest);
    }
    assert(alone_changed(d, programs, borrowable, id, outs, first, out_of(one)));
    if first.flow is Go {
        let r = explored_from(
            d,
            i,
            tag,
            programs,
            s.id,
            s.cursor,
            borrowable,
            known,
            first.outs,
        );
        lemma_explored_from(
            d,
            i,
            tag,
            programs,
            s.id,
            s.cursor,
            borrowable,
            known,
            first.outs,
        );
        let nested = enter(d, i + 1, Some(tag), steps, known, nothing());
        law_selection_adds(d, i + 1, Some(tag), steps, known, one.sink);
        if r.flow is Go {
            lemma_grown_plus(
                d,
                shape,
                borrowable,
                outs[id],
                first.outs[id],
                r.outs[id],
                one.sink,
                nested.sink,
            );
            assert forall|k: int| 0 <= k < outs.len() && k != id implies #[trigger] r.outs[k]
                == outs[k] by {
                assert(first.outs[k] == outs[k]);
            }
        }
    }
}

/// A captured element stands for the element.
proof fn lemma_captured_alike(
    d: DocV,
    i: int,
    j: int,
    shape: TerminalShape,
    borrowable: bool,
)
    requires
        borrowable ==> addressable(d),
        0 <= i <= d.events.len(),
        0 <= j <= d.events.len(),
    ensures
        alike(
            d,
            shape,
            borrowable,
            captured(d, i, j, shape, borrowable),
            ItemV::Element(fragment(d, i, j)),
        ),
{
    if borrowable && shape == TerminalShape::Element {
        if i > 0 {
            assert(d.events[i - 1].end <= u32::MAX);
        }
        if j > 0 {
            assert(d.events[j - 1].end <= u32::MAX);
        }
    }
}

/// Whether exploring an element has given the first `n` programs that do so what
/// they select in it alone, and the others nothing.
pub open spec fn explored_done(
    d: DocV,
    programs: Seq<ProgramV>,
    states: Seq<StateV>,
    acts: Seq<Action>,
    borrowable: bool,
    before: Seq<SinkV>,
    outs: Seq<SinkV>,
    parts: Seq<Out>,
    n: nat,
    k: int,
) -> bool {
    let id = states[k].id as int;
    if k < n && acts[k] == Action::Explore {
        together(d, programs, borrowable, id, before, outs, parts[k])
    } else {
        outs[id] == before[id]
    }
}

/// Exploring an element gives every program what it selects in it alone.
proof fn lemma_all_explored(
    d: DocV,
    i: int,
    tag: TagV,
    programs: Seq<ProgramV>,
    states: Seq<StateV>,
    now: Seq<StateV>,
    borrowable: bool,
    known: ReadingsV,
    outs: Seq<SinkV>,
    n: nat,
)
    requires
        tidy(d.events),
        borrowable ==> addressable(d),
        0 <= i < d.events.len(),
        d.events[i].event == EventV::Start(tag),
        settled(programs, states, outs),
        now.len() == states.len(),
        forall|k: int|
            0 <= k < states.len() ==> (#[trigger] now[k]).id == states[k].id && now[k].cursor
                == states[k].cursor,
        n <= states.len(),
    ensures
        ({
            let acts = actions(programs, states, tag);
            let parts = part_each(d, i, tag, programs, states, known);
            let j = scope_end(d.events, i + 1, 1);
            let r = all_explored(
                d,
                i,
                j,
                tag,
                programs,
                now,
                acts,
                borrowable,
                known,
                outs,
                n,
            );
            &&& r.flow is Go ==> {
                &&& r.outs.len() == outs.len()
                &&& forall|id: int|
                    0 <= id < outs.len() && absent(states, id) ==> #[trigger] r.outs[id] == outs[id]
                &&& forall|k: int|
                    0 <= k < states.len() ==> #[trigger] explored_done(
                        d,
                        programs,
                        states,
                        acts,
                        borrowable,
                        outs,
                        r.outs,
                        parts,
                        n,
                        k,
                    )
            }
            &&& r.flow !is Go ==> r.flow is Ambiguous && exists|k: int|
                0 <= k < states.len() && (#[trigger] parts[k]).flow == r.flow
        }),
    decreases d.events.len() - i, 2int, n,
{
    let acts = actions(programs, states, tag);
    let parts = part_each(d, i, tag, programs, states, known);
    let j = scope_end(d.events, i + 1, 1);
    if n > 0 {
        let m = (n - 1) as nat;
        lemma_all_explored(d, i, tag, programs, states, now, borrowable, known, outs, m);
        let head = all_explored(
            d,
            i,
            j,
            tag,
            programs,
            now,
            acts,
            borrowable,
            known,
            outs,
            m,
        );
        let s = states[n - 1];
        let id = s.id as int;
        assert(alone(states, n - 1, id));
        if head.flow is Go {
            assert(explored_done(
                d,
                programs,
                states,
                acts,
                borrowable,
                outs,
                head.outs,
                parts,
                m,
                n - 1,
            ));
            let r = all_explored(
                d,
                i,
                j,
                tag,
                programs,
                now,
                acts,
                borrowable,
                known,
                outs,
                n,
            );
            if acts[n - 1] == Action::Explore {
                assert(now[n - 1].id == s.id);
                lemma_explored_alone(
                    d,
                    i,
                    tag,
                    programs,
                    s,
                    now[n - 1],
                    borrowable,
                    known,
                    head.outs,
                );
            }
            if r.flow is Go {
                assert forall|k: int| 0 <= k < states.len() implies #[trigger] explored_done(
                    d,
                    programs,
                    states,
                    acts,
                    borrowable,
                    outs,
                    r.outs,
                    parts,
                    n,
                    k,
                ) by {
                    assert(explored_done(
                        d,
                        programs,
                        states,
                        acts,
                        borrowable,
                        outs,
                        head.outs,
                        parts,
                        m,
                        k,
                    ));
                    if k != n - 1 {
                        assert(states[k].id != id);
                    }
                }
                assert forall|other: int|
                    0 <= other < outs.len() && absent(states, other) implies #[trigger] r.outs[other]
                    == outs[other] by {
                    assert(states[n - 1].id != other);
                    assert(head.outs[other] == outs[other]);
                }
            } else {
                assert(parts[n - 1].flow == r.flow);
            }
        }
    } else {
        assert forall|k: int| 0 <= k < states.len() implies #[trigger] explored_done(
            d,
            programs,
            states,
            acts,
            borrowable,
            outs,
            outs,
            parts,
            0,
            k,
        ) by {}
    }
}

/// Several programs select in an element what each of them selects in it alone.
proof fn lemma_start_together(
    d: DocV,
    i: int,
    tag: TagV,
    programs: Seq<ProgramV>,
    states: Seq<StateV>,
    borrowable: bool,
    known: ReadingsV,
    outs: Seq<SinkV>,
)
    requires
        tidy(d.events),
        borrowable ==> addressable(d),
        0 <= i < d.events.len(),
        d.events[i].event == EventV::Start(tag),
        settled(programs, states, outs),
        ambiguous(programs, states, tag) is None,
    ensures
        ({
            let m = many_start(d, i, tag, programs, states, borrowable, known, outs);
            let parts = part_each(d, i, tag, programs, states, known);
            &&& m.flow is Go ==> {
                &&& m.next == scope_end(d.events, i + 1, 1)
                &&& m.states.len() == states.len()
                &&& m.outs.len() == outs.len()
                &&& settled(programs, m.states, m.outs)
                &&& forall|id: int|
                    0 <= id < outs.len() && absent(states, id) ==> #[trigger] m.outs[id] == outs[id]
                &&& forall|k: int|
                    0 <= k < states.len() ==> #[trigger] start_done(
                        d,
                        programs,
                        states,
                        tag,
                        borrowable,
                        outs,
                        m,
                        parts,
                        k,
                    )
            }
            &&& m.flow !is Go ==> m.flow is Ambiguous && exists|k: int|
                0 <= k < states.len() && (#[trigger] parts[k]).flow == m.flow
        }),
    decreases d.events.len() - i, 3int, 0int,
{
    let acts = actions(programs, states, tag);
    let parts = part_each(d, i, tag, programs, states, known);
    let j = scope_end(d.events, i + 1, 1);
    let read = many_read(d, i, tag, programs, states, borrowable, known, outs);
    let m = many_start(d, i, tag, programs, states, borrowable, known, outs);
    lemma_read_together(d, i, tag, programs, states, borrowable, known, outs);
    if read.flow is Go {
        assert forall|k: int| 0 <= k < states.len() implies (#[trigger] read.states[k]).id
            == states[k].id && read.states[k].cursor == states[k].cursor by {
            assert(read_done(d, programs, states, tag, borrowable, outs, read, parts, k));
        }
        assert(settled(programs, states, read.outs));
        lemma_all_explored(
            d,
            i,
            tag,
            programs,
            states,
            read.states,
            borrowable,
            known,
            read.outs,
            states.len(),
        );
        if m.flow is Go {
            assert forall|k: int| 0 <= k < states.len() implies #[trigger] start_done(
                d,
                programs,
                states,
                tag,
                borrowable,
                outs,
                m,
                parts,
                k,
            ) by {
                assert(read_done(d, programs, states, tag, borrowable, outs, read, parts, k));
                assert(explored_done(
                    d,
                    programs,
                    states,
                    acts,
                    borrowable,
                    read.outs,
                    m.outs,
                    parts,
                    states.len(),
                    k,
                ));
            }
            assert forall|id: int|
                0 <= id < outs.len() && absent(states, id) implies #[trigger] m.outs[id]
                == outs[id] by {
                assert(read.outs[id] == outs[id]);
            }
            assert(settled(programs, m.states, m.outs));
        }
    }
}

/// A program that counts is never done.
proof fn lemma_never_counts(
    d: DocV,
    i: int,
    tag: TagV,
    program: ProgramV,
    s: StateV,
    known: ReadingsV,
)
    requires
        wants_child(program, s),
        s.done ==> !counts(program, s),
    ensures
        behind(program, s, tag, part_of(d, i, tag, program, s, known)).done ==> !counts(program, s),
{
    lemma_steps_at(program, s);
    let steps = steps_at(program, s);
    lemma_hit_done(d, i, tag, steps, s.count + 1, known, nothing());
    lemma_enter_flow(d, i + 1, Some(tag), steps, known, nothing());
    lemma_enter_flow(d, i + 1, Some(tag), steps.skip(1), known, nothing());
}

/// What the pass inside an element does for the program of the state `k`.
pub open spec fn inner_done(
    d: DocV,
    programs: Seq<ProgramV>,
    states: Seq<StateV>,
    acts: Seq<Action>,
    borrowable: bool,
    outs: Seq<SinkV>,
    sinks: Seq<SinkV>,
    parts: Seq<Out>,
    k: int,
) -> bool {
    let id = states[k].id as int;
    &&& sinks.len() == outs.len()
    &&& if goes_inside(acts[k]) {
        together(d, programs, borrowable, id, outs, sinks, parts[k])
    } else {
        sinks[id] == outs[id]
    }
}

/// The programs that look inside an element start there.
proof fn lemma_inner_fresh(
    d: DocV,
    i: int,
    tag: TagV,
    programs: Seq<ProgramV>,
    states: Seq<StateV>,
    outs: Seq<SinkV>,
    known: ReadingsV,
)
    requires
        settled(programs, states, outs),
    ensures
        starts(
            programs,
            inside(all_bumped(programs, states, tag), actions(programs, states, tag)),
            outs,
        ),
{
    let acts = actions(programs, states, tag);
    let now = all_bumped(programs, states, tag);
    let inner = inside(now, acts);
    assert(fits(programs, now, outs)) by {
        assert forall|k: int| 0 <= k < now.len() implies (#[trigger] now[k]).id < programs.len() by {
            assert(states[k].id < programs.len());
        }
    }
    lemma_inside(programs, now, acts, outs, 0);
    assert forall|at: int| 0 <= at < inner.len() implies ({
        let t = #[trigger] inner[at];
        &&& alone(inner, at, t.id as int)
        &&& t == fresh(t.id, t.cursor)
        &&& t.cursor < programs[t.id as int].steps.len()
    }) by {
        let k = lemma_inside_from(now, acts, at);
        let id = states[k].id as int;
        assert(alone(states, k, id));
        assert(alone(now, k, id)) by {
            assert forall|p: int| 0 <= p < now.len() && p != k implies (#[trigger] now[p]).id
                != id by {
                assert(states[p].id != id);
            }
        }
        lemma_led(d, i, tag, programs[id], states[k], known);
        let there = lemma_inside_at(now, acts, k, id);
        assert(inner[at].id == id);
        if there != at {
            assert(inner[at].id != id);
        }
    }
}

/// Whether every state is one at the beginning of a scope, and no two are of
/// the same program.
pub open spec fn starts(programs: Seq<ProgramV>, states: Seq<StateV>, outs: Seq<SinkV>) -> bool {
    &&& fits(programs, states, outs)
    &&& forall|k: int|
        0 <= k < states.len() ==> {
            let s = #[trigger] states[k];
            &&& alone(states, k, s.id as int)
            &&& s == fresh(s.id, s.cursor)
            &&& s.cursor < programs[s.id as int].steps.len()
        }
}

/// The programs that look for children, once the others have selected.
proof fn lemma_children(
    current: Option<TagV>,
    place: nat,
    text: Seq<u8>,
    programs: Seq<ProgramV>,
    states: Seq<StateV>,
    outs: Seq<SinkV>,
)
    requires
        starts(programs, states, outs),
    ensures
        settled(
            programs,
            not_terminal(programs, states),
            values_selected(current, place, text, programs, states, outs),
        ),
{
    let children = not_terminal(programs, states);
    if programs.len() > 0 {
        lemma_values(current, place, text, programs, states, outs, 0);
        lemma_not_terminal(programs, states, outs, 0);
    }
    assert(states.len() > 0 ==> programs.len() > 0) by {
        if states.len() > 0 {
            assert(states[0].id < programs.len());
        }
    }
    assert forall|at: int| 0 <= at < children.len() implies ({
        let s = #[trigger] children[at];
        &&& alone(children, at, s.id as int)
        &&& wants_child(programs[s.id as int], s)
        &&& s.done ==> !counts(programs[s.id as int], s)
    }) by {
        let k = lemma_not_terminal_from(programs, states, at);
        let id = states[k].id as int;
        assert(alone(states, k, id));
        let there = lemma_not_terminal_at(programs, states, outs, k, id);
        if there != at {
            assert(children[at].id != id);
        }
    }
}

/// Several programs that enter an element, or the document, select in it what
/// each of them selects in it alone.
proof fn lemma_scope_together(
    d: DocV,
    i: int,
    tag: TagV,
    programs: Seq<ProgramV>,
    states: Seq<StateV>,
    borrowable: bool,
    known: ReadingsV,
    outs: Seq<SinkV>,
)
    requires
        tidy(d.events),
        borrowable ==> addressable(d),
        0 <= i <= d.events.len(),
        starts(programs, states, outs),
    ensures
        ({
            let r = many_scope(
                d,
                i,
                true,
                programs,
                not_terminal(programs, states),
                borrowable,
                known,
                values_selected(
                    Some(tag),
                    place_at(d, i - 1),
                    scope_text(d.events, i, 1),
                    programs,
                    states,
                    outs,
                ),
            );
            &&& in_step(
                d,
                programs,
                states,
                borrowable,
                outs,
                r,
                enter_each(d, i, Some(tag), programs, states, known),
            )
            &&& r.flow is Go ==> r.next == scope_end(d.events, i, 1)
        }),
    decreases d.events.len() - i, 6int, 0int,
{
    let text = scope_text(d.events, i, 1);
    let children = not_terminal(programs, states);
    let place = place_at(d, i - 1);
    let told = values_selected(Some(tag), place, text, programs, states, outs);
    let r = many_scope(d, i, true, programs, children, borrowable, known, told);
    lemma_children(Some(tag), place, text, programs, states, outs);
    lemma_scan_together(d, i, programs, children, borrowable, known, told);
    lemma_entered(
        d,
        i,
        Some(tag),
        place,
        text,
        programs,
        states,
        borrowable,
        known,
        outs,
        r,
    );
}

/// What the programs select as they enter a scope, and in it, is what each of
/// them selects alone.
proof fn lemma_entered(
    d: DocV,
    i: int,
    current: Option<TagV>,
    place: nat,
    text: Seq<u8>,
    programs: Seq<ProgramV>,
    states: Seq<StateV>,
    borrowable: bool,
    known: ReadingsV,
    outs: Seq<SinkV>,
    r: ManyV,
)
    requires
        starts(programs, states, outs),
        text == if current is Some {
            scope_text(d.events, i, 1)
        } else {
            Seq::empty()
        },
        place == if current is Some {
            place_at(d, i - 1)
        } else {
            d.base
        },
        ({
            let children = not_terminal(programs, states);
            let told = values_selected(current, place, text, programs, states, outs);
            let scanned = many_scan(d, i, programs, children, borrowable, known, told);
            &&& in_step(
                d,
                programs,
                children,
                borrowable,
                told,
                scanned,
                alone_each(d, i, programs, children, known),
            )
            &&& if any_child(programs, children) {
                r == scanned
            } else {
                r.flow is Go && r.outs == told
            }
        }),
    ensures
        in_step(
            d,
            programs,
            states,
            borrowable,
            outs,
            r,
            enter_each(d, i, current, programs, states, known),
        ),
{
    let children = not_terminal(programs, states);
    let told = values_selected(current, place, text, programs, states, outs);
    let ones = alone_each(d, i, programs, children, known);
    let all = enter_each(d, i, current, programs, states, known);
    lemma_children(current, place, text, programs, states, outs);
    if programs.len() > 0 {
        lemma_values(current, place, text, programs, states, outs, 0);
    }
    assert(states.len() > 0 ==> programs.len() > 0) by {
        if states.len() > 0 {
            assert(states[0].id < programs.len());
        }
    }
    if !any_child(programs, children) && children.len() > 0 {
        assert(wants_child(programs[children[0].id as int], children[0]));
    }
    match r.flow {
        FlowV::Go => {
            assert(programs.len() == 0 ==> told == outs) by {
                assert(programs.len() == 0 ==> states.len() == 0);
            }
            assert forall|id: int|
                0 <= id < outs.len() && absent(states, id) implies #[trigger] r.outs[id]
                == outs[id] by {
                lemma_values(current, place, text, programs, states, outs, id);
                lemma_not_terminal(programs, states, outs, id);
                assert(told[id] == outs[id]);
            }
            assert forall|k: int| 0 <= k < states.len() implies together(
                d,
                programs,
                borrowable,
                states[k].id as int,
                outs,
                r.outs,
                #[trigger] all[k],
            ) by {
                let s = states[k];
                let id = s.id as int;
                let program = programs[id];
                let shape = program.terminal_shape;
                assert(alone(states, k, id));
                lemma_values(current, place, text, programs, states, outs, id);
                let at = lemma_not_terminal_at(programs, states, outs, k, id);
                let steps = steps_at(program, s);
                assert(steps[0] == program.steps[s.cursor as int]);
                if at_value(programs, s) {
                    assert(absent(children, id));
                    assert(r.outs[id] == told[id]);
                    match value_of(current, text, program, s) {
                        Some(value) => {
                            let item = ItemV::Scalar(value);
                            lemma_plus_push(outs[id], place, item);
                            lemma_grown_same(
                                d,
                                shape,
                                borrowable,
                                outs[id],
                                nothing().push(place, item),
                            );
                        },
                        None => {
                            lemma_grown_same(d, shape, borrowable, outs[id], nothing());
                        },
                    }
                } else {
                    assert(children[at] == s);
                    assert(wants_child(program, children[at]));
                    assert(any_child(programs, children));
                    assert(told[id] == outs[id]);
                    assert(together(
                        d,
                        programs,
                        borrowable,
                        children[at].id as int,
                        told,
                        r.outs,
                        ones[at],
                    ));
                    assert(all[k] == ones[at]);
                }
            }
        },
        FlowV::Ambiguous(_) => {
            let at = choose|at: int|
                0 <= at < children.len() && (#[trigger] ones[at]).flow == r.flow;
            let k = lemma_not_terminal_from(programs, states, at);
            let s = states[k];
            assert(wants_child(programs[s.id as int], children[at]));
            lemma_steps_at(programs[s.id as int], s);
            assert(all[k] == ones[at]);
        },
        FlowV::Done => {},
    }
}

/// Every program with steps starts once, before its first step.
pub(crate) proof fn lemma_starting(programs: Seq<ProgramV>, n: nat, id: int) -> (at: int)
    requires
        n <= programs.len(),
    ensures
        forall|j: int|
            0 <= j < starting(programs, n).len() ==> (#[trigger] starting(programs, n)[j]).id < n,
        0 <= id < n && programs[id].steps.len() > 0 ==> alone(starting(programs, n), at, id)
            && starting(programs, n)[at] == fresh(id as nat, 0),
    decreases n,
{
    if n == 0 {
        0
    } else {
        let head = starting(programs, (n - 1) as nat);
        let at = lemma_starting(programs, (n - 1) as nat, id);
        if id == n - 1 {
            head.len() as int
        } else {
            at
        }
    }
}

/// The list of one program among what several have selected.
pub(crate) proof fn lemma_each_modified(
    programs: Seq<ProgramV>,
    outs: Seq<SinkV>,
    known: ReadingsV,
    n: nat,
    id: int,
)
    requires
        n <= programs.len(),
        0 <= id < n,
    ensures
        each_modified(programs, outs, known, n) matches Ok(lists) ==> lists.len() == n
            && all_modified(programs[id].modifiers, once(outs[id].items), known) == Ok::<
            Seq<ItemV>,
            ErrorV,
        >(lists[id]),
    decreases n,
{
    if id < n - 1 {
        lemma_each_modified(programs, outs, known, (n - 1) as nat, id);
    } else if n > 1 {
        lemma_each_modified(programs, outs, known, (n - 1) as nat, 0);
    }
}

/// Whether what several programs select shows one of them as it would be
/// alone: the places of elements go through no modifiers, and elements that are
/// only counted are counted.
pub open spec fn comparable(program: ProgramV, borrowable: bool) -> bool {
    match program.terminal_shape {
        TerminalShape::Element => borrowable ==> program.modifiers.len() == 0,
        TerminalShape::Count => program.modifiers == seq![Modifier::Count],
        TerminalShape::Text => true,
    }
}

/// Whether the entries that a program has in a pass of several stand for those
/// that it has alone: they have the same texts where texts are captured, and
/// are otherwise the same, except that an element of a document that stays is
/// given by its place.
pub open spec fn shown_alike(
    d: DocV,
    program: ProgramV,
    borrowable: bool,
    many: Seq<ItemV>,
    one: Seq<ItemV>,
) -> bool {
    if program.terminal_shape == TerminalShape::Text {
        same_text_each(many, one)
    } else {
        all_alike(d, TerminalShape::Element, borrowable, many, one)
    }
}

/// What stands for each other at the same places does so with each place once.
proof fn lemma_once_alike(
    d: DocV,
    shape: TerminalShape,
    borrowable: bool,
    many: Seq<FoundV>,
    one: Seq<FoundV>,
)
    requires
        found_alike(d, shape, borrowable, many, one),
    ensures
        found_alike(d, shape, borrowable, firsts(many), firsts(one)),
        all_alike(d, shape, borrowable, once(many), once(one)),
    decreases many.len(),
{
    if many.len() > 0 {
        let a = many.drop_last();
        let b = one.drop_last();
        assert forall|j: int| 0 <= j < a.len() implies (#[trigger] a[j]).place == b[j].place
            && alike(d, shape, borrowable, a[j].item, b[j].item) by {
            assert(a[j] == many[j]);
        }
        lemma_once_alike(d, shape, borrowable, a, b);
        let place = many.last().place;
        assert(place == one.last().place) by {
            assert(many[many.len() - 1].place == one[many.len() - 1].place);
        }
        if found_at(firsts(a), place) {
            let k = choose|k: int|
                0 <= k < firsts(a).len() && (#[trigger] firsts(a)[k]).place == place;
            assert(firsts(b)[k].place == place);
        }
        if found_at(firsts(b), place) {
            let k = choose|k: int|
                0 <= k < firsts(b).len() && (#[trigger] firsts(b)[k]).place == place;
            assert(firsts(a)[k].place == place);
        }
    }
    let a = firsts(many);
    let b = firsts(one);
    assert forall|j: int| 0 <= j < entries(a).len() implies alike(
        d,
        shape,
        borrowable,
        #[trigger] entries(a)[j],
        entries(b)[j],
    ) by {
        assert(a[j].place == b[j].place);
    }
}

/// Modifiers make the same of two lists that stand for each other.
proof fn lemma_modified_alike(
    d: DocV,
    program: ProgramV,
    borrowable: bool,
    many: Seq<ItemV>,
    one: Seq<ItemV>,
    known: ReadingsV,
)
    requires
        comparable(program, borrowable),
        all_alike(d, program.terminal_shape, borrowable, many, one),
    ensures
        match (
            all_modified(program.modifiers, many, known),
            all_modified(program.modifiers, one, known),
        ) {
            (Ok(a), Ok(b)) => shown_alike(d, program, borrowable, a, b),
            (Err(a), Err(b)) => a == b,
            _ => false,
        },
{
    match program.terminal_shape {
        TerminalShape::Element => {
            if !borrowable {
                assert(many =~= one);
            }
        },
        TerminalShape::Count => {
            reveal_with_fuel(all_modified, 2);
            assert(program.modifiers.skip(1).len() == 0);
        },
        TerminalShape::Text => {
            assert(same_text_each(many, one)) by {
                assert forall|i: int| 0 <= i < many.len() implies text_of(#[trigger] many[i])
                    == text_of(one[i]) by {
                    assert(alike(d, TerminalShape::Text, borrowable, many[i], one[i]));
                }
            }
            law_modifiers_see_texts(program.modifiers, many, one, known);
        },
    }
}

/// Without errors the first tag is where several programs enter, too.
proof fn lemma_entry_tag(d: DocV, i: int)
    requires
        tidy(d.events),
    ensures
        entry_tag(d.events, i) == first_tag(d.events, i),
        entry_tag(d.events, i) matches Some(at) ==> 0 <= at < d.events.len() && (
        d.events[at].event is Start || d.events[at].event is Empty),
    decreases d.events.len() - i,
{
    if 0 <= i < d.events.len() {
        assert(d.events[i].event !is Error);
        lemma_entry_tag(d, i + 1);
    }
}

/// Where a program that is not left out stands among those, and where its
/// entries stand among all lists.
proof fn lemma_spread(programs: Seq<Option<ProgramV>>, lists: Seq<Seq<ItemV>>, k: int)
    requires
        0 <= k < programs.len(),
    ensures
        spread(programs, lists).len() == programs.len(),
        programs[k] matches Some(program) ==> {
            let at = active(programs.take(k)).len() as int;
            &&& at < active(programs).len()
            &&& active(programs)[at] == program
            &&& spread(programs, lists)[k] == lists[at]
        },
        programs[k] is None ==> spread(programs, lists)[k] == Seq::<ItemV>::empty(),
    decreases programs.len(),
{
    let head = programs.drop_last();
    if k < head.len() {
        lemma_spread(head, lists, k);
        assert(head.take(k) =~= programs.take(k));
    } else {
        assert(head =~= programs.take(k));
        if head.len() > 0 {
            lemma_spread(head, lists, 0);
        } else {
            assert(spread(head, lists).len() == 0);
        }
    }
}

/// Whether several programs have in one pass what each of them has alone: the
/// pass succeeds exactly where each of them succeeds, and their entries then
/// stand for each other.
pub open spec fn shown_together(
    d: DocV,
    programs: Seq<ProgramV>,
    borrowable: bool,
    many: Result<Seq<Seq<ItemV>>, ErrorV>,
    ones: Seq<Result<Seq<ItemV>, ErrorV>>,
) -> bool {
    match many {
        Ok(lists) => {
            &&& lists.len() == programs.len()
            &&& forall|id: int|
                0 <= id < programs.len() ==> match #[trigger] ones[id] {
                    Ok(items) => shown_alike(d, programs[id], borrowable, lists[id], items),
                    Err(_) => false,
                }
        },
        Err(_) => exists|id: int| 0 <= id < programs.len() && (#[trigger] ones[id]) is Err,
    }
}

/// The outcomes of programs alone.
pub open spec fn outcomes(programs: Seq<ProgramV>, finals: Seq<Out>, known: ReadingsV) -> Seq<
    Result<Seq<ItemV>, ErrorV>,
> {
    Seq::new(
        programs.len(),
        |id: int| outcome(finals[id].sink, finals[id].flow, programs[id].modifiers, known),
    )
}

/// A program that asks for a number, where some do.
proof fn lemma_asks_from(outs: Seq<SinkV>) -> (id: int)
    ensures
        asks_of(outs).len() > 0 ==> 0 <= id < outs.len() && outs[id].asked.len() > 0,
        asks_of(outs).len() == 0 ==> forall|k: int|
            0 <= k < outs.len() ==> (#[trigger] outs[k]).asked.len() == 0,
    decreases outs.len(),
{
    if outs.len() == 0 {
        0
    } else {
        let head = outs.drop_last();
        let id = lemma_asks_from(head);
        assert forall|k: int| asks_of(outs).len() == 0 && 0 <= k < outs.len() implies (
        #[trigger] outs[k]).asked.len() == 0 by {
            if k < head.len() {
                assert(head[k] == outs[k]);
            }
        }
        if asks_of(head).len() > 0 {
            assert(head[id] == outs[id]);
            id
        } else {
            outs.len() - 1
        }
    }
}

/// A program whose modifiers fail, where some do.
proof fn lemma_modified_from(
    programs: Seq<ProgramV>,
    outs: Seq<SinkV>,
    known: ReadingsV,
    n: nat,
) -> (id: int)
    requires
        each_modified(programs, outs, known, n) is Err,
    ensures
        0 <= id < n,
        all_modified(programs[id].modifiers, once(outs[id].items), known) is Err,
    decreases n,
{
    if n == 0 {
        0
    } else if each_modified(programs, outs, known, (n - 1) as nat) is Err {
        lemma_modified_from(programs, outs, known, (n - 1) as nat)
    } else {
        n - 1
    }
}

proof fn lemma_lists(programs: Seq<ProgramV>, outs: Seq<SinkV>, known: ReadingsV, n: nat)
    ensures
        each_modified(programs, outs, known, n) matches Ok(lists) ==> lists.len() == n,
    decreases n,
{
    if n > 0 {
        lemma_lists(programs, outs, known, (n - 1) as nat);
    }
}

/// Programs that have collected alike have outcomes that stand for each other.
proof fn lemma_outcomes(
    d: DocV,
    programs: Seq<ProgramV>,
    borrowable: bool,
    known: ReadingsV,
    outs: Seq<SinkV>,
    flow: FlowV,
    finals: Seq<Out>,
)
    requires
        forall|id: int|
            0 <= id < programs.len() ==> comparable(#[trigger] programs[id], borrowable),
        match flow {
            FlowV::Go => outs.len() == programs.len() && forall|id: int|
                0 <= id < programs.len() ==> (#[trigger] finals[id]).flow is Go && like(
                    d,
                    programs[id].terminal_shape,
                    borrowable,
                    outs[id],
                    finals[id].sink,
                ),
            FlowV::Done => false,
            FlowV::Ambiguous(_) => exists|id: int|
                0 <= id < programs.len() && (#[trigger] finals[id]).flow is Ambiguous,
        },
    ensures
        shown_together(
            d,
            programs,
            borrowable,
            many_outcome(programs, outs, flow, known),
            outcomes(programs, finals, known),
        ),
{
    let ones = outcomes(programs, finals, known);
    if flow is Go {
        let asking = lemma_asks_from(outs);
        if asks_of(outs).len() > 0 {
            assert(finals[asking].flow is Go);
            assert(ones[asking] is Err);
        } else {
            match each_modified(programs, outs, known, programs.len()) {
                Ok(lists) => {
                    lemma_lists(programs, outs, known, programs.len());
                    assert forall|id: int| 0 <= id < programs.len() implies match #[trigger] ones[id] {
                        Ok(items) => shown_alike(d, programs[id], borrowable, lists[id], items),
                        Err(_) => false,
                    } by {
                        assert(finals[id].flow is Go);
                        assert(outs[id].asked.len() == 0);
                        assert(comparable(programs[id], borrowable));
                        lemma_each_modified(programs, outs, known, programs.len(), id);
                        lemma_once_alike(
                            d,
                            programs[id].terminal_shape,
                            borrowable,
                            outs[id].items,
                            finals[id].sink.items,
                        );
                        lemma_modified_alike(
                            d,
                            programs[id],
                            borrowable,
                            once(outs[id].items),
                            once(finals[id].sink.items),
                            known,
                        );
                    }
                },
                Err(_) => {
                    let id = lemma_modified_from(programs, outs, known, programs.len());
                    assert(finals[id].flow is Go);
                    assert(outs[id].asked.len() == 0);
                    assert(comparable(programs[id], borrowable));
                    lemma_once_alike(
                        d,
                        programs[id].terminal_shape,
                        borrowable,
                        outs[id].items,
                        finals[id].sink.items,
                    );
                    lemma_modified_alike(
                        d,
                        programs[id],
                        borrowable,
                        once(outs[id].items),
                        once(finals[id].sink.items),
                        known,
                    );
                    assert(ones[id] is Err);
                },
            }
        }
    } else {
        let id = choose|id: int|
            0 <= id < programs.len() && (#[trigger] finals[id]).flow is Ambiguous;
        assert(ones[id] is Err);
    }
}

proof fn lemma_starts(programs: Seq<ProgramV>)
    ensures
        starts(
            programs,
            starting(programs, programs.len()),
            nothing_each(programs.len()),
        ),
{
    let states = starting(programs, programs.len());
    let none = lemma_starting(programs, programs.len(), -1);
    assert forall|k: int| 0 <= k < states.len() implies ({
        let s = #[trigger] states[k];
        &&& alone(states, k, s.id as int)
        &&& s == fresh(s.id, s.cursor)
        &&& s.cursor < programs[s.id as int].steps.len()
    }) by {
        lemma_starting_at(programs, programs.len(), k);
        let id = states[k].id as int;
        let at = lemma_starting(programs, programs.len(), id);
        if at != k {
            assert(states[k].id != id);
        }
    }
}

proof fn lemma_starting_at(programs: Seq<ProgramV>, n: nat, k: int)
    requires
        n <= programs.len(),
        0 <= k < starting(programs, n).len(),
    ensures
        ({
            let s = starting(programs, n)[k];
            s.id < n && s == fresh(s.id, 0) && programs[s.id as int].steps.len() > 0
        }),
    decreases n,
{
    if n > 0 {
        if k < starting(programs, (n - 1) as nat).len() {
            lemma_starting_at(programs, (n - 1) as nat, k);
        }
    }
}

/// A program without steps takes no part.
proof fn lemma_starting_absent(programs: Seq<ProgramV>, n: nat, id: int)
    requires
        n <= programs.len(),
        0 <= id < programs.len(),
        programs[id].steps.len() == 0,
    ensures
        absent(starting(programs, n), id),
    decreases n,
{
    if n > 0 {
        lemma_starting_absent(programs, (n - 1) as nat, id);
    }
}

/// Programs that stay in step from the beginning to the end collect alike.
proof fn lemma_finals(
    d: DocV,
    programs: Seq<ProgramV>,
    borrowable: bool,
    many: ManyV,
    ones: Seq<Out>,
    finals: Seq<Out>,
)
    requires
        in_step(
            d,
            programs,
            starting(programs, programs.len()),
            borrowable,
            nothing_each(programs.len()),
            many,
            ones,
        ),
        forall|k: int|
            0 <= k < starting(programs, programs.len()).len() ==> #[trigger] ones[k] == finals[starting(
                programs,
                programs.len(),
            )[k].id as int],
        forall|id: int|
            0 <= id < programs.len() && programs[id].steps.len() == 0 ==> #[trigger] finals[id] == (
            Out { sink: nothing(), flow: FlowV::Go }),
    ensures
        match many.flow {
            FlowV::Go => many.outs.len() == programs.len() && forall|id: int|
                0 <= id < programs.len() ==> (#[trigger] finals[id]).flow is Go && like(
                    d,
                    programs[id].terminal_shape,
                    borrowable,
                    many.outs[id],
                    finals[id].sink,
                ),
            FlowV::Done => false,
            FlowV::Ambiguous(_) => exists|id: int|
                0 <= id < programs.len() && (#[trigger] finals[id]).flow is Ambiguous,
        },
{
    let states = starting(programs, programs.len());
    let none = nothing_each(programs.len());
    match many.flow {
        FlowV::Go => {
            assert forall|id: int| 0 <= id < programs.len() implies (#[trigger] finals[id]).flow is Go
                && like(
                d,
                programs[id].terminal_shape,
                borrowable,
                many.outs[id],
                finals[id].sink,
            ) by {
                let k = lemma_starting(programs, programs.len(), id);
                assert(none[id] == nothing());
                if programs[id].steps.len() > 0 {
                    assert(states[k].id == id);
                    assert(together(d, programs, borrowable, id, none, many.outs, ones[k]));
                    let more = since(nothing(), many.outs[id]);
                    assert(more.items =~= many.outs[id].items);
                    assert(more.asked =~= many.outs[id].asked);
                } else {
                    lemma_starting_absent(programs, programs.len(), id);
                    assert(many.outs[id] == none[id]);
                }
            }
        },
        FlowV::Ambiguous(_) => {
            let k = choose|k: int| 0 <= k < states.len() && (#[trigger] ones[k]).flow == many.flow;
            lemma_starting_at(programs, programs.len(), k);
            assert(finals[states[k].id as int].flow is Ambiguous);
        },
        FlowV::Done => {},
    }
}

/// What programs select alone in a document.
pub open spec fn selected_each(programs: Seq<ProgramV>, xml: Seq<u8>, known: ReadingsV) -> Seq<
    Result<Seq<ItemV>, ErrorV>,
> {
    Seq::new(programs.len(), |id: int| selected(programs[id], xml, known))
}

/// What programs select alone inside the first element of a fragment.
pub open spec fn selected_within_each(
    programs: Seq<ProgramV>,
    bytes: Seq<u8>,
    known: ReadingsV,
) -> Seq<Result<Seq<ItemV>, ErrorV>> {
    Seq::new(programs.len(), |id: int| selected_within(programs[id], bytes, known))
}

/// Several programs that run in one pass over a document select what each of
/// them selects alone: the pass succeeds exactly where each of them would, and
/// then every program has the same entries, or such that stand for them. Every
/// document that [`crate::engine::validate`] accepts is tidy.
pub proof fn law_together_as_alone(
    programs: Seq<ProgramV>,
    xml: Seq<u8>,
    borrowable: bool,
    known: ReadingsV,
)
    requires
        forall|id: int|
            0 <= id < programs.len() ==> comparable(#[trigger] programs[id], borrowable),
    ensures
        tidy(doc_of(xml).events) && (borrowable ==> addressable(doc_of(xml))) ==> shown_together(
            doc_of(xml),
            programs,
            borrowable,
            many_selected(programs, xml, borrowable, known),
            selected_each(programs, xml, known),
        ),
{
    let d = doc_of(xml);
    let states = starting(programs, programs.len());
    let none = nothing_each(programs.len());
    let text = Seq::<u8>::empty();
    let children = not_terminal(programs, states);
    let told = values_selected(None, 0, text, programs, states, none);
    let r = many_scope(d, 0, false, programs, children, borrowable, known, told);
    if tidy(d.events) && (borrowable ==> addressable(d)) {
        lemma_starts(programs);
        lemma_children(None, 0, text, programs, states, none);
        lemma_scan_together(d, 0, programs, children, borrowable, known, told);
        lemma_entered(d, 0, None, 0, text, programs, states, borrowable, known, none, r);
        let ones = enter_each(d, 0, None, programs, states, known);
        let finals = Seq::new(
            programs.len(),
            |id: int|
                if programs[id].steps.len() == 0 {
                    Out { sink: nothing(), flow: FlowV::Go }
                } else {
                    out_of(enter(d, 0, None, programs[id].steps, known, nothing()))
                },
        );
        assert forall|k: int| 0 <= k < states.len() implies #[trigger] ones[k]
            == finals[states[k].id as int] by {
            lemma_starting_at(programs, programs.len(), k);
            let program = programs[states[k].id as int];
            assert(program.steps.skip(0) =~= program.steps);
        }
        lemma_finals(d, programs, borrowable, r, ones, finals);
        lemma_outcomes(d, programs, borrowable, known, r.outs, r.flow, finals);
        assert(outcomes(programs, finals, known) =~= selected_each(programs, xml, known));
    }
}

/// Several programs that run in one pass inside an element select what each of
/// them selects there alone. Every fragment that [`crate::engine::validate`]
/// accepts is tidy.
pub proof fn law_together_as_alone_within(
    programs: Seq<ProgramV>,
    bytes: Seq<u8>,
    known: ReadingsV,
)
    requires
        forall|id: int| 0 <= id < programs.len() ==> comparable(#[trigger] programs[id], false),
    ensures
        tidy(doc_of(bytes).events) ==> shown_together(
            doc_of(bytes),
            programs,
            false,
            many_selected_within(programs, bytes, known),
            selected_within_each(programs, bytes, known),
        ),
{
    let d = doc_of(bytes);
    let states = starting(programs, programs.len());
    let none = nothing_each(programs.len());
    let finals = Seq::new(
        programs.len(),
        |id: int|
            if programs[id].steps.len() == 0 {
                Out { sink: nothing(), flow: FlowV::Go }
            } else {
                within(bytes, 0, programs[id].steps, known, nothing())
            },
    );
    if tidy(d.events) {
        lemma_starts(programs);
        lemma_entry_tag(d, 0);
        assert(outcomes(programs, finals, known) =~= selected_within_each(programs, bytes, known));
        match entry_tag(d.events, 0) {
            Some(at) => {
                match d.events[at].event {
                    EventV::Start(tag) => {
                        let text = scope_text(d.events, at + 1, 1);
                        let place = place_at(d, at);
                        let told = values_selected(Some(tag), place, text, programs, states, none);
                        let r = many_scope(
                            d,
                            at + 1,
                            true,
                            programs,
                            not_terminal(programs, states),
                            false,
                            known,
                            told,
                        );
                        let ones = enter_each(d, at + 1, Some(tag), programs, states, known);
                        lemma_scope_together(
                            d,
                            at + 1,
                            tag,
                            programs,
                            states,
                            false,
                            known,
                            none,
                        );
                        assert forall|k: int| 0 <= k < states.len() implies #[trigger] ones[k]
                            == finals[states[k].id as int] by {
                            lemma_starting_at(programs, programs.len(), k);
                            let program = programs[states[k].id as int];
                            assert(program.steps.skip(0) =~= program.steps);
                        }
                        lemma_finals(d, programs, false, r, ones, finals);
                        lemma_outcomes(d, programs, false, known, r.outs, r.flow, finals);
                    },
                    EventV::Empty(tag) => {
                        let place = place_at(d, at);
                        lemma_empty_finals(d, tag, place, programs, known, finals);
                        let told = values_selected(
                            Some(tag),
                            place,
                            Seq::empty(),
                            programs,
                            states,
                            none,
                        );
                        lemma_outcomes(d, programs, false, known, told, FlowV::Go, finals);
                    },
                    _ => {},
                }
            },
            None => {
                assert forall|id: int| 0 <= id < programs.len() implies (
                #[trigger] finals[id]).flow is Go && like(
                    d,
                    programs[id].terminal_shape,
                    false,
                    none[id],
                    finals[id].sink,
                ) by {}
                lemma_outcomes(d, programs, false, known, none, FlowV::Go, finals);
            },
        }
    }
}

/// What programs select in an empty element.
proof fn lemma_empty_finals(
    d: DocV,
    tag: TagV,
    place: nat,
    programs: Seq<ProgramV>,
    known: ReadingsV,
    finals: Seq<Out>,
)
    requires
        forall|id: int|
            0 <= id < programs.len() ==> #[trigger] finals[id] == if programs[id].steps.len()
                == 0 {
                Out { sink: nothing(), flow: FlowV::Go }
            } else {
                Out { sink: in_empty(tag, place, programs[id].steps, nothing()), flow: FlowV::Go }
            },
    ensures
        ({
            let told = values_selected(
                Some(tag),
                place,
                Seq::empty(),
                programs,
                starting(programs, programs.len()),
                nothing_each(programs.len()),
            );
            told.len() == programs.len() && forall|id: int|
                0 <= id < programs.len() ==> (#[trigger] finals[id]).flow is Go && like(
                    d,
                    programs[id].terminal_shape,
                    false,
                    told[id],
                    finals[id].sink,
                )
        }),
{
    let states = starting(programs, programs.len());
    let none = nothing_each(programs.len());
    let text = Seq::<u8>::empty();
    let told = values_selected(Some(tag), place, text, programs, states, none);
    lemma_starts(programs);
    if programs.len() > 0 {
        lemma_values(Some(tag), place, text, programs, states, none, 0);
    }
    assert forall|id: int| 0 <= id < programs.len() implies (#[trigger] finals[id]).flow is Go
        && like(d, programs[id].terminal_shape, false, told[id], finals[id].sink) by {
        lemma_values(Some(tag), place, text, programs, states, none, id);
        let k = lemma_starting(programs, programs.len(), id);
        assert(none[id] == nothing());
        if programs[id].steps.len() > 0 {
            assert(alone(states, k, id));
        } else {
            lemma_starting_absent(programs, programs.len(), id);
        }
    }
}

/// Of several queries in one pass each gives what it gives alone, and one that
/// is left out gives nothing. Where each of them alone succeeds, the pass
/// succeeds, and only there.
pub proof fn law_queries_together_as_alone(
    xml: Seq<u8>,
    programs: Seq<Option<ProgramV>>,
    borrowable: bool,
    known: ReadingsV,
)
    requires
        forall|k: int|
            0 <= k < programs.len() ==> match #[trigger] programs[k] {
                Some(program) => comparable(program, borrowable),
                None => true,
            },
    ensures
        tidy(doc_of(xml).events) && (borrowable ==> addressable(doc_of(xml))) ==> match got_many(
            xml,
            programs,
            borrowable,
            known,
        ) {
            Ok(lists) => lists.len() == programs.len() && forall|k: int|
                0 <= k < programs.len() ==> match #[trigger] programs[k] {
                    Some(program) => match selected(program, xml, known) {
                        Ok(items) => shown_alike(
                            doc_of(xml),
                            program,
                            borrowable,
                            lists[k],
                            items,
                        ),
                        Err(_) => false,
                    },
                    None => lists[k] == Seq::<ItemV>::empty(),
                },
            Err(_) => exists|k: int|
                0 <= k < programs.len() && match #[trigger] programs[k] {
                    Some(program) => selected(program, xml, known) is Err,
                    None => false,
                },
        },
{
    let those = active(programs);
    let d = doc_of(xml);
    assert forall|at: int| 0 <= at < those.len() implies comparable(
        #[trigger] those[at],
        borrowable,
    ) by {
        let k = lemma_active_from(programs, at);
    }
    law_together_as_alone(those, xml, borrowable, known);
    let ones = selected_each(those, xml, known);
    if tidy(d.events) && (borrowable ==> addressable(d)) {
        match many_selected(those, xml, borrowable, known) {
            Ok(lists) => {
                let all = spread(programs, lists);
                if programs.len() > 0 {
                    lemma_spread(programs, lists, 0);
                } else {
                    assert(all.len() == 0);
                }
                assert forall|k: int| 0 <= k < programs.len() implies match #[trigger] programs[k] {
                    Some(program) => match selected(program, xml, known) {
                        Ok(items) => shown_alike(d, program, borrowable, all[k], items),
                        Err(_) => false,
                    },
                    None => all[k] == Seq::<ItemV>::empty(),
                } by {
                    lemma_spread(programs, lists, k);
                    if programs[k] is Some {
                        let at = active(programs.take(k)).len() as int;
                        assert(ones[at] is Ok);
                    }
                }
            },
            Err(_) => {
                let at = choose|at: int| 0 <= at < those.len() && (#[trigger] ones[at]) is Err;
                let k = lemma_active_from(programs, at);
                assert(programs[k] == Some(those[at]));
            },
        }
    }
}

/// The place among all queries of one that is not left out.
proof fn lemma_active_from(programs: Seq<Option<ProgramV>>, at: int) -> (k: int)
    requires
        0 <= at < active(programs).len(),
    ensures
        0 <= k < programs.len(),
        programs[k] == Some(active(programs)[at]),
    decreases programs.len(),
{
    let head = programs.drop_last();
    if at < active(head).len() {
        let k = lemma_active_from(head, at);
        assert(head[k] == programs[k]);
        k
    } else {
        programs.len() - 1
    }
}

/// A program that a path stands for can always be compared, unless places go
/// through modifiers.
pub proof fn law_compiled_is_comparable(path: Seq<char>, borrowable: bool)
    ensures
        compiled(path) matches Ok(program) ==> (borrowable && program.terminal_shape
            == TerminalShape::Element ==> program.modifiers.len() == 0) ==> comparable(
            program,
            borrowable,
        ),
{
}

} // verus!
