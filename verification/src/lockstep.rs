//! What several programs select in one pass over a document: each program has
//! its own place in its steps, and a subtree is read through only where one of
//! them has to look inside it. A program that tests candidates, or looks at any
//! depth inside its matches, reads on for itself from where they start.

use vstd::prelude::*;

use crate::number::ReadingsV;
use crate::path::{FilterV, IndexV, ProgramV, StepV, TerminalShape};
use crate::semantics::{
    after, child_test, done_if, element_text, empty_hit, filter_hit, filter_of, fragment, hit, hits,
    nothing, onward, scope_end, scope_text, simple_child, text_of, wants_first, within, FlowV,
    FoundV, ItemV, Ran, SinkV,
};
use crate::text::decimal;
use crate::wildcard::MatcherV;
use crate::xml::{attr_value, place_at, pos_at, DocV, EventV, TagV};

verus! {

/// Where a program stands in a scope.
pub struct StateV {
    /// Which program.
    pub id: nat,
    /// The step that it looks for.
    pub cursor: nat,
    /// How many children have matched that step.
    pub count: nat,
    /// Whether the one element that the step selects has been found.
    pub done: bool,
}

/// What a program does with an element.
#[derive(Debug, Clone, Copy, PartialEq, Eq, Structural)]
pub enum Action {
    /// Nothing.
    Skip,
    /// Looks for its step inside the element.
    DescendantFollow,
    /// Counts the element.
    ConsumeForCount,
    /// Selects the element.
    EmitTerminal,
    /// Goes on with its next step inside the element.
    Descend,
    /// Tests the element with its filter.
    CaptureFilter,
    /// Selects the element, or goes on with its next step inside, and then looks
    /// for its step inside, too.
    Explore,
    /// Does what it does alone.
    Search,
}

/// The outcome of a part of a pass for all programs.
pub struct ManyV {
    pub next: int,
    pub states: Seq<StateV>,
    pub outs: Seq<SinkV>,
    pub flow: FlowV,
}

/// The outcome for one program.
pub struct OneV {
    pub state: StateV,
    pub sink: SinkV,
    pub flow: FlowV,
}

/// A program before any of its steps, or before a later one.
pub open spec fn fresh(id: nat, cursor: nat) -> StateV {
    StateV { id, cursor, count: 0, done: false }
}

/// The step that a program looks for.
pub open spec fn step_at(program: ProgramV, s: StateV) -> Option<StepV> {
    if s.cursor < program.steps.len() {
        Some(program.steps[s.cursor as int])
    } else {
        None
    }
}

/// The steps behind the one that a program looks for.
pub open spec fn rest_at(program: ProgramV, s: StateV) -> Seq<StepV> {
    program.steps.skip(s.cursor as int + 1)
}

/// Whether a program looks for a child element.
pub open spec fn wants_child(program: ProgramV, s: StateV) -> bool {
    step_at(program, s) matches Some(StepV::Child { .. })
}

/// Whether the step that a program looks for matches an element.
pub open spec fn state_hits(program: ProgramV, s: StateV, tag: TagV) -> bool {
    !s.done && match step_at(program, s) {
        Some(StepV::Child { name, .. }) => hits(name, tag),
        _ => false,
    }
}

/// Whether a program looks for a bare child name with further steps behind it.
pub open spec fn bare_before_steps(program: ProgramV, s: StateV) -> bool {
    match step_at(program, s) {
        Some(StepV::Child { index: IndexV::Auto, descendant: false, .. }) => rest_at(
            program,
            s,
        ).len() > 0,
        _ => false,
    }
}

/// What a program does with an element.
pub open spec fn action(program: ProgramV, s: StateV, tag: TagV) -> Action {
    if s.done {
        Action::Skip
    } else {
        match step_at(program, s) {
            Some(StepV::Child { name, index, descendant }) => if !hits(name, tag) {
                if descendant {
                    Action::DescendantFollow
                } else {
                    Action::Skip
                }
            } else if descendant {
                if index is Each {
                    Action::Explore
                } else {
                    Action::Search
                }
            } else {
                let select = if rest_at(program, s).len() == 0 {
                    Action::EmitTerminal
                } else {
                    Action::Descend
                };
                match index {
                    IndexV::Count => Action::ConsumeForCount,
                    IndexV::Nth(n) => if s.count == n {
                        select
                    } else {
                        Action::Skip
                    },
                    IndexV::Auto => select,
                    IndexV::Each => select,
                    _ => Action::CaptureFilter,
                }
            },
            _ => Action::Skip,
        }
    }
}

/// Whether the next match is the one element that a program's step selects.
pub open spec fn nth_next(program: ProgramV, s: StateV) -> bool {
    match step_at(program, s) {
        Some(StepV::Child { index: IndexV::Nth(n), .. }) => s.count == n,
        _ => false,
    }
}

/// Where a program stands once it has seen the tag of an element.
pub open spec fn bumped(program: ProgramV, s: StateV, tag: TagV) -> StateV {
    if state_hits(program, s, tag) {
        StateV { count: s.count + 1, done: nth_next(program, s), ..s }
    } else {
        s
    }
}

/// The name of the first program's step that matches a second element although
/// it is a bare name with further steps behind it.
pub open spec fn ambiguous(
    programs: Seq<ProgramV>,
    states: Seq<StateV>,
    tag: TagV,
) -> Option<Seq<char>>
    decreases states.len(),
{
    if states.len() == 0 {
        None
    } else {
        let s = states[0];
        let program = programs[s.id as int];
        if s.count > 0 && bare_before_steps(program, s) && state_hits(program, s, tag) {
            match step_at(program, s) {
                Some(StepV::Child { name, .. }) => Some(name.source()),
                _ => None,
            }
        } else {
            ambiguous(programs, states.skip(1), tag)
        }
    }
}

/// What all programs do with an element.
pub open spec fn actions(programs: Seq<ProgramV>, states: Seq<StateV>, tag: TagV) -> Seq<Action> {
    Seq::new(states.len(), |k: int| action(programs[states[k].id as int], states[k], tag))
}

/// Where all programs stand once they have seen the tag of an element.
pub open spec fn all_bumped(programs: Seq<ProgramV>, states: Seq<StateV>, tag: TagV) -> Seq<
    StateV,
> {
    Seq::new(states.len(), |k: int| bumped(programs[states[k].id as int], states[k], tag))
}

/// Whether a program has to look inside the element.
pub open spec fn goes_inside(act: Action) -> bool {
    act == Action::Descend || act == Action::DescendantFollow
}

/// Whether some program has to look inside the element.
pub open spec fn any_inside(acts: Seq<Action>) -> bool {
    exists|k: int| 0 <= k < acts.len() && goes_inside(#[trigger] acts[k])
}

/// The programs that look inside an element, and where they stand there.
pub open spec fn inside(states: Seq<StateV>, acts: Seq<Action>) -> Seq<StateV>
    decreases states.len(),
{
    if states.len() == 0 {
        Seq::empty()
    } else {
        let head = inside(states.drop_last(), acts);
        let s = states.last();
        match acts[states.len() - 1] {
            Action::Descend => head.push(fresh(s.id, s.cursor + 1)),
            Action::DescendantFollow => head.push(fresh(s.id, s.cursor)),
            _ => head,
        }
    }
}

/// What programs that look for an attribute or for text select as they enter
/// the element `current` with the text `text`, which is at a place, or the
/// document.
pub open spec fn values_selected(
    current: Option<TagV>,
    place: nat,
    text: Seq<u8>,
    programs: Seq<ProgramV>,
    states: Seq<StateV>,
    outs: Seq<SinkV>,
) -> Seq<SinkV>
    decreases states.len(),
{
    if states.len() == 0 {
        outs
    } else {
        let head = values_selected(current, place, text, programs, states.drop_last(), outs);
        let s = states.last();
        match value_of(current, text, programs[s.id as int], s) {
            Some(value) => head.update(
                s.id as int,
                head[s.id as int].push(place, ItemV::Scalar(value)),
            ),
            None => head,
        }
    }
}

/// The attribute's value or the text that a program looks for.
pub open spec fn value_of(
    current: Option<TagV>,
    text: Seq<u8>,
    program: ProgramV,
    s: StateV,
) -> Option<Seq<u8>> {
    match step_at(program, s) {
        Some(StepV::Attribute(name)) => match current {
            Some(tag) => attr_value(tag, name),
            None => None,
        },
        Some(StepV::Text) => Some(text),
        _ => None,
    }
}

/// The programs that do not look for an attribute or for text.
pub open spec fn not_terminal(programs: Seq<ProgramV>, states: Seq<StateV>) -> Seq<StateV>
    decreases states.len(),
{
    if states.len() == 0 {
        Seq::empty()
    } else {
        let head = not_terminal(programs, states.drop_last());
        let s = states.last();
        match step_at(programs[s.id as int], s) {
            Some(StepV::Attribute(_)) => head,
            Some(StepV::Text) => head,
            _ => head.push(s),
        }
    }
}

/// What is selected at the end of a scope, which is at a place: the counts.
pub open spec fn counts_selected(
    programs: Seq<ProgramV>,
    states: Seq<StateV>,
    place: nat,
    outs: Seq<SinkV>,
) -> Seq<SinkV>
    decreases states.len(),
{
    if states.len() == 0 {
        outs
    } else {
        let head = counts_selected(programs, states.drop_last(), place, outs);
        let s = states.last();
        match step_at(programs[s.id as int], s) {
            Some(StepV::Child { index: IndexV::Count, .. }) => head.update(
                s.id as int,
                head[s.id as int].push(place, ItemV::Scalar(decimal(s.count))),
            ),
            _ => head,
        }
    }
}

/// Whether every place in a document has an address of 32 bits.
pub open spec fn addressable(d: DocV) -> bool {
    forall|i: int| 0 <= i < d.events.len() ==> (#[trigger] d.events[i]).end <= u32::MAX
}

/// How a selected element is captured.
pub open spec fn captured(
    d: DocV,
    i: int,
    j: int,
    shape: TerminalShape,
    borrowable: bool,
) -> ItemV {
    match shape {
        TerminalShape::Element => if borrowable {
            ItemV::ElementRef { start: pos_at(d.events, i) as u32, end: pos_at(d.events, j) as u32 }
        } else {
            ItemV::Element(fragment(d, i, j))
        },
        TerminalShape::Text => ItemV::Text(element_text(fragment(d, i, j))),
        TerminalShape::Count => ItemV::Scalar(Seq::empty()),
    }
}

/// An element as a program keeps it.
pub open spec fn shaped(shape: TerminalShape, item: ItemV) -> ItemV {
    match shape {
        TerminalShape::Element => item,
        TerminalShape::Text => ItemV::Text(text_of(item)),
        TerminalShape::Count => ItemV::Scalar(Seq::empty()),
    }
}

/// A found element as a program keeps it.
pub open spec fn kept_as(shape: TerminalShape, found: FoundV) -> FoundV {
    FoundV { item: shaped(shape, found.item), ..found }
}

/// Whether a step selects children by their name and place alone.
pub open spec fn selects_plainly(step: StepV) -> bool {
    match step {
        StepV::Child { index: IndexV::Auto, descendant: false, .. } => true,
        StepV::Child { index: IndexV::Each, descendant: false, .. } => true,
        StepV::Child { index: IndexV::Nth(_), descendant: false, .. } => true,
        _ => false,
    }
}

/// Tests a candidate by the text of its first child with a matching name, and
/// where it passes, selects children of it. The candidate stands at the offset
/// `base`.
pub open spec fn gathered_test(
    bytes: Seq<u8>,
    base: nat,
    pred: MatcherV,
    filter: FilterV,
    step: StepV,
    shape: TerminalShape,
    known: ReadingsV,
    sink: SinkV,
) -> (bool, SinkV) {
    let (pass, asked) = child_test(bytes, pred, filter, known);
    let told = sink.ask(asked);
    if pass {
        let found = within(bytes, base, seq![step], known, nothing()).sink.items;
        (
            true,
            SinkV {
                items: told.items + found.map_values(|f: FoundV| kept_as(shape, f)),
                asked: told.asked,
            },
        )
    } else {
        (false, told)
    }
}

/// The predicate child and the filter of a program that looks for one child of
/// its candidates and selects others by their name and place: one reading of a
/// candidate does both.
pub open spec fn one_reading(program: ProgramV, s: StateV) -> Option<(MatcherV, FilterV)> {
    let rest = rest_at(program, s);
    match filter_of(program.steps[s.cursor as int]) {
        Some(filter) => match simple_child(filter) {
            Some(pred) => if filter.attr_only is None && rest.len() == 1 && selects_plainly(
                rest[0],
            ) {
                Some((pred, filter))
            } else {
                None
            },
            None => None,
        },
        None => None,
    }
}

/// What a program with a filter does with a candidate whose start tag is the
/// event `i`.
pub open spec fn filtered(
    d: DocV,
    i: int,
    tag: TagV,
    program: ProgramV,
    s: StateV,
    known: ReadingsV,
    sink: SinkV,
) -> Ran {
    match one_reading(program, s) {
        Some((pred, filter)) => {
            let j = after(d.events, i, tag);
            let (pass, all) = gathered_test(
                fragment(d, i, j),
                place_at(d, i),
                pred,
                filter,
                rest_at(program, s)[0],
                program.terminal_shape,
                known,
                sink,
            );
            Ran {
                next: j,
                sink: all,
                flow: done_if(
                    pass && wants_first(program.steps[s.cursor as int]),
                    FlowV::Go,
                ),
            }
        },
        None => filter_hit(d, i, tag, program.steps.skip(s.cursor as int), known, sink),
    }
}

/// Where a program stands once its step has handled an element: the search in
/// the scope may be over.
pub open spec fn handled(s: StateV, sink: SinkV, flow: FlowV) -> OneV {
    OneV {
        state: StateV { done: s.done || flow is Done, ..s },
        sink,
        flow: if flow is Done {
            FlowV::Go
        } else {
            flow
        },
    }
}

/// What a program does with an element once that has been read through, from
/// before the event `i` to before the event `j`.
pub open spec fn completed(
    d: DocV,
    i: int,
    j: int,
    tag: TagV,
    program: ProgramV,
    s: StateV,
    act: Action,
    borrowable: bool,
    known: ReadingsV,
    sink: SinkV,
) -> OneV {
    match act {
        Action::EmitTerminal => OneV {
            state: s,
            sink: sink.push(
                place_at(d, i),
                captured(d, i, j, program.terminal_shape, borrowable),
            ),
            flow: FlowV::Go,
        },
        Action::CaptureFilter => {
            let r = filtered(d, i, tag, program, s, known, sink);
            handled(s, r.sink, r.flow)
        },
        Action::Search => {
            let r = hit(d, i, tag, program.steps.skip(s.cursor as int), s.count, known, sink);
            handled(s, r.sink, r.flow)
        },
        _ => OneV { state: s, sink, flow: FlowV::Go },
    }
}

/// What the first `n` programs do with an element once it has been read
/// through.
pub open spec fn all_completed(
    d: DocV,
    i: int,
    j: int,
    tag: TagV,
    programs: Seq<ProgramV>,
    states: Seq<StateV>,
    acts: Seq<Action>,
    borrowable: bool,
    known: ReadingsV,
    outs: Seq<SinkV>,
    n: nat,
) -> ManyV
    decreases n,
{
    if n == 0 {
        ManyV { next: j, states, outs, flow: FlowV::Go }
    } else {
        let head = all_completed(
            d,
            i,
            j,
            tag,
            programs,
            states,
            acts,
            borrowable,
            known,
            outs,
            (n - 1) as nat,
        );
        let s = states[n - 1];
        let id = s.id as int;
        if head.flow is Go {
            let one = completed(
                d,
                i,
                j,
                tag,
                programs[id],
                s,
                acts[n - 1],
                borrowable,
                known,
                head.outs[id],
            );
            ManyV {
                next: j,
                states: head.states.update(n - 1, one.state),
                outs: head.outs.update(id, one.sink),
                flow: one.flow,
            }
        } else {
            head
        }
    }
}

/// What all programs do while they read through the element whose start tag is
/// the event `i`, and once they have.
pub open spec fn many_read(
    d: DocV,
    i: int,
    tag: TagV,
    programs: Seq<ProgramV>,
    states: Seq<StateV>,
    borrowable: bool,
    known: ReadingsV,
    outs: Seq<SinkV>,
) -> ManyV
    decreases d.events.len() - i, 3int, 0int,
{
    let acts = actions(programs, states, tag);
    let now = all_bumped(programs, states, tag);
    let r = if any_inside(acts) && i < d.events.len() {
        let within_states = inside(now, acts);
        many_scope(
            d,
            i + 1,
            true,
            programs,
            not_terminal(programs, within_states),
            borrowable,
            known,
            values_selected(
                Some(tag),
                place_at(d, i),
                scope_text(d.events, i + 1, 1),
                programs,
                within_states,
                outs,
            ),
        )
    } else {
        ManyV { next: after(d.events, i, tag), states: now, outs, flow: FlowV::Go }
    };
    if r.flow is Go {
        all_completed(
            d,
            i,
            r.next,
            tag,
            programs,
            now,
            acts,
            borrowable,
            known,
            r.outs,
            now.len(),
        )
    } else {
        r
    }
}

/// What all programs do with the element whose start tag is the event `i`.
pub open spec fn many_start(
    d: DocV,
    i: int,
    tag: TagV,
    programs: Seq<ProgramV>,
    states: Seq<StateV>,
    borrowable: bool,
    known: ReadingsV,
    outs: Seq<SinkV>,
) -> ManyV
    decreases d.events.len() - i, 4int, 0int,
{
    match ambiguous(programs, states, tag) {
        Some(name) => ManyV { next: i + 1, states, outs, flow: FlowV::Ambiguous(name) },
        None => {
            let read = many_read(d, i, tag, programs, states, borrowable, known, outs);
            if read.flow is Go {
                let found = all_explored(
                    d,
                    i,
                    read.next,
                    tag,
                    programs,
                    read.states,
                    actions(programs, states, tag),
                    borrowable,
                    known,
                    read.outs,
                    states.len(),
                );
                ManyV { next: read.next, states: read.states, ..found }
            } else {
                read
            }
        },
    }
}

/// What a program by itself selects in the element whose start tag is the event
/// `i`, from the step `cursor` on.
pub open spec fn explored_from(
    d: DocV,
    i: int,
    tag: TagV,
    programs: Seq<ProgramV>,
    id: nat,
    cursor: nat,
    borrowable: bool,
    known: ReadingsV,
    outs: Seq<SinkV>,
) -> ManyV
    decreases d.events.len() - i, 0int, 0int,
{
    let alone = seq![fresh(id, cursor)];
    if i < d.events.len() {
        many_scope(
            d,
            i + 1,
            true,
            programs,
            not_terminal(programs, alone),
            borrowable,
            known,
            values_selected(
                Some(tag),
                place_at(d, i),
                scope_text(d.events, i + 1, 1),
                programs,
                alone,
                outs,
            ),
        )
    } else {
        ManyV { next: i, states: alone, outs, flow: FlowV::Go }
    }
}

/// What a program whose step looks at any depth selects in a matching element,
/// from before the event `i` to before the event `j`: the element itself, or what
/// its next step finds there.
pub open spec fn explored_first(
    d: DocV,
    i: int,
    j: int,
    tag: TagV,
    programs: Seq<ProgramV>,
    s: StateV,
    borrowable: bool,
    known: ReadingsV,
    outs: Seq<SinkV>,
) -> ManyV
    decreases d.events.len() - i, 1int, 0int,
{
    let id = s.id as int;
    let program = programs[id];
    if rest_at(program, s).len() == 0 {
        ManyV {
            next: j,
            states: Seq::empty(),
            outs: outs.update(
                id,
                outs[id].push(
                    place_at(d, i),
                    captured(d, i, j, program.terminal_shape, borrowable),
                ),
            ),
            flow: FlowV::Go,
        }
    } else {
        explored_from(d, i, tag, programs, s.id, s.cursor + 1, borrowable, known, outs)
    }
}

/// What a program whose step looks at any depth selects in a matching element,
/// and then in the elements inside.
pub open spec fn explored(
    d: DocV,
    i: int,
    j: int,
    tag: TagV,
    programs: Seq<ProgramV>,
    s: StateV,
    borrowable: bool,
    known: ReadingsV,
    outs: Seq<SinkV>,
) -> ManyV
    decreases d.events.len() - i, 2int, 0int,
{
    let first = explored_first(d, i, j, tag, programs, s, borrowable, known, outs);
    if first.flow is Go {
        explored_from(d, i, tag, programs, s.id, s.cursor, borrowable, known, first.outs)
    } else {
        first
    }
}

/// What those of the first `n` programs select in an element whose steps look at
/// any depth.
pub open spec fn all_explored(
    d: DocV,
    i: int,
    j: int,
    tag: TagV,
    programs: Seq<ProgramV>,
    states: Seq<StateV>,
    acts: Seq<Action>,
    borrowable: bool,
    known: ReadingsV,
    outs: Seq<SinkV>,
    n: nat,
) -> ManyV
    decreases d.events.len() - i, 3int, n,
{
    if n == 0 {
        ManyV { next: j, states, outs, flow: FlowV::Go }
    } else {
        let head = all_explored(
            d,
            i,
            j,
            tag,
            programs,
            states,
            acts,
            borrowable,
            known,
            outs,
            (n - 1) as nat,
        );
        if head.flow is Go && acts[n - 1] == Action::Explore {
            explored(d, i, j, tag, programs, states[n - 1], borrowable, known, head.outs)
        } else {
            head
        }
    }
}

/// What a program does with an empty element at a place.
pub open spec fn one_empty(
    program: ProgramV,
    s: StateV,
    tag: TagV,
    place: nat,
    known: ReadingsV,
    sink: SinkV,
) -> OneV {
    if !state_hits(program, s, tag) {
        OneV { state: s, sink, flow: FlowV::Go }
    } else {
        let r = empty_hit(
            tag,
            place,
            program.steps.skip(s.cursor as int),
            s.count + 1,
            known,
            sink,
        );
        handled(StateV { count: s.count + 1, ..s }, r.sink, r.flow)
    }
}

/// What the first `n` programs do with an empty element at a place.
pub open spec fn many_empty(
    tag: TagV,
    place: nat,
    programs: Seq<ProgramV>,
    states: Seq<StateV>,
    known: ReadingsV,
    outs: Seq<SinkV>,
    n: nat,
) -> ManyV
    decreases n,
{
    if n == 0 {
        ManyV { next: 0, states, outs, flow: FlowV::Go }
    } else {
        let head = many_empty(tag, place, programs, states, known, outs, (n - 1) as nat);
        let s = states[n - 1];
        let id = s.id as int;
        if head.flow is Go {
            let one = one_empty(programs[id], s, tag, place, known, head.outs[id]);
            ManyV {
                next: 0,
                states: head.states.update(n - 1, one.state),
                outs: head.outs.update(id, one.sink),
                flow: one.flow,
            }
        } else {
            head
        }
    }
}

/// Whether some program looks for a child element.
pub open spec fn any_child(programs: Seq<ProgramV>, states: Seq<StateV>) -> bool {
    exists|k: int|
        0 <= k < states.len() && wants_child(
            programs[(#[trigger] states[k]).id as int],
            states[k],
        )
}

/// What all programs select from the event `i` on to the end of the scope, or
/// of the document.
pub open spec fn many_scope(
    d: DocV,
    i: int,
    scoped: bool,
    programs: Seq<ProgramV>,
    states: Seq<StateV>,
    borrowable: bool,
    known: ReadingsV,
    outs: Seq<SinkV>,
) -> ManyV
    decreases d.events.len() - i, 6int, 0int,
{
    if any_child(programs, states) {
        many_scan(d, i, programs, states, borrowable, known, outs)
    } else {
        let next = if scoped {
            scope_end(d.events, i, 1)
        } else {
            d.events.len() as int
        };
        ManyV { next, states, outs, flow: FlowV::Go }
    }
}

/// What all programs select among the elements from the event `i` on to the
/// end of the scope.
pub open spec fn many_scan(
    d: DocV,
    i: int,
    programs: Seq<ProgramV>,
    states: Seq<StateV>,
    borrowable: bool,
    known: ReadingsV,
    outs: Seq<SinkV>,
) -> ManyV
    decreases d.events.len() - i, 5int, 0int,
{
    if i < 0 || i >= d.events.len() {
        ManyV {
            next: i,
            states,
            outs: counts_selected(programs, states, place_at(d, i), outs),
            flow: FlowV::Go,
        }
    } else {
        match d.events[i].event {
            EventV::Start(tag) => {
                let r = many_start(d, i, tag, programs, states, borrowable, known, outs);
                if r.flow is Go {
                    many_scan(
                        d,
                        onward(d.events, i, r.next),
                        programs,
                        r.states,
                        borrowable,
                        known,
                        r.outs,
                    )
                } else {
                    r
                }
            },
            EventV::Empty(tag) => {
                let r = many_empty(
                    tag,
                    place_at(d, i),
                    programs,
                    states,
                    known,
                    outs,
                    states.len(),
                );
                if r.flow is Go {
                    many_scan(d, i + 1, programs, r.states, borrowable, known, r.outs)
                } else {
                    ManyV { next: i + 1, ..r }
                }
            },
            EventV::End(_) => ManyV {
                next: i + 1,
                states,
                outs: counts_selected(programs, states, place_at(d, i), outs),
                flow: FlowV::Go,
            },
            EventV::Error => ManyV { next: i + 1, states, outs, flow: FlowV::Go },
            _ => many_scan(d, i + 1, programs, states, borrowable, known, outs),
        }
    }
}

/// The programs that have steps, before their first one.
pub open spec fn starting(programs: Seq<ProgramV>, n: nat) -> Seq<StateV>
    decreases n,
{
    if n == 0 {
        Seq::empty()
    } else {
        let head = starting(programs, (n - 1) as nat);
        if programs[n - 1].steps.len() > 0 {
            head.push(fresh((n - 1) as nat, 0))
        } else {
            head
        }
    }
}

/// Collections of nothing for `n` programs.
pub open spec fn nothing_each(n: nat) -> Seq<SinkV> {
    Seq::new(n, |i: int| crate::semantics::nothing())
}

} // verus!
