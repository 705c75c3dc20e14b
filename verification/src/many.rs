//! Evaluates several compiled paths in one pass over a document.

use smallvec::SmallVec;
use vstd::prelude::*;

use crate::engine::{
    compare, consume_to_end, flow_of, handle_filter_start, handle_hit, handle_match_empty,
    matches_tag, moved, simple_child_filter, still_unknown, EngineError, ErrorV, Stop,
};
use crate::item::{
    all_unknown, collected, extract_element_text, found_view, items_view, read_text_in_scope, Found,
    Item, Sink,
};
use crate::lockstep::{
    action, actions, addressable, all_bumped, all_completed, all_explored, ambiguous, any_child,
    any_inside, bare_before_steps, bumped, captured, completed, counts_selected, explored,
    explored_first, explored_from, filtered, fresh, gathered_test, goes_inside, handled, inside,
    kept_as, many_empty, many_read, many_scan, many_scope, many_start, not_terminal, nothing_each,
    one_empty, rest_at, selects_plainly, shaped, starting, state_hits, step_at, values_selected,
    wants_child, Action, ManyV, OneV, StateV,
};
use crate::modifiers::{all_modified, apply_modifiers, asks_unknown};
use crate::number::{no_readings, texts_view, Readings, ReadingsV};
use crate::path::{
    lemma_steps_view, lemma_steps_view_skip, steps_view, ChildIndex, Filter, IndexV, Program,
    ProgramV, Step, StepV, TerminalShape,
};
use crate::semantics::{
    after, child_test, child_text, descend, empty_hit, enter, filter_of, first_tag, fragment, hit,
    nothing, once, scan, scope_text, start_hit, within, FlowV, FoundV, ItemV, Out, Ran, SinkV,
};
use crate::text::{copy_bytes, copy_text, decimal_bytes, utf8_or_empty};
use crate::wildcard::NameMatcher;
use crate::xml::{
    doc_at, doc_of, empty_element, place_at, pos_at, DocV, EventAt, EventV, Scanner, Tag, TagV,
    XmlEvent,
};

verus! {

/// Where a program stands in a scope.
#[derive(Clone, Copy)]
struct ProgState {
    id: usize,
    cursor: usize,
    count: usize,
    done_in_scope: bool,
}

impl View for ProgState {
    type V = StateV;

    closed spec fn view(&self) -> StateV {
        StateV {
            id: self.id as nat,
            cursor: self.cursor as nat,
            count: self.count as nat,
            done: self.done_in_scope,
        }
    }
}

closed spec fn states_view(states: Seq<ProgState>) -> Seq<StateV> {
    Seq::new(states.len(), |k: int| states[k]@)
}

/// The contents of a list of programs.
pub open spec fn programs_view(programs: Seq<&Program>) -> Seq<ProgramV> {
    Seq::new(programs.len(), |k: int| programs[k]@)
}

/// What the programs have collected.
pub open spec fn outs_view(outs: Seq<Sink>) -> Seq<SinkV> {
    Seq::new(outs.len(), |k: int| outs[k]@)
}

/// Every state is one of a program, at one of its steps or behind the last,
/// and has counted no more than `bound` elements.
closed spec fn states_ok(programs: Seq<&Program>, states: Seq<ProgState>, bound: int) -> bool {
    forall|k: int|
        0 <= k < states.len() ==> {
            let s = #[trigger] states[k];
            s.id < programs.len() && s.cursor <= programs[s.id as int].steps@.len() && s.count
                <= bound
        }
}

/// The programs ask only for numbers that are not known.
closed spec fn outs_unknown(outs: Seq<SinkV>, known: ReadingsV) -> bool {
    forall|k: int| 0 <= k < outs.len() ==> all_unknown((#[trigger] outs[k]).asked, known)
}

/// A short list of actions, one for each program, kept in place as long as
/// there are few.
#[verifier::external_body]
pub struct ActionList {
    list: SmallVec<[Action; 16]>,
}

/// The actions of a list.
pub uninterp spec fn actions_of(list: ActionList) -> Seq<Action>;

/// `SmallVec::new` is an empty list.
#[verifier::external_body]
fn no_actions() -> (r: ActionList)
    ensures
        actions_of(r) == Seq::<Action>::empty(),
{
    ActionList { list: SmallVec::new() }
}

/// `SmallVec::push` adds an action at the end.
#[verifier::external_body]
fn add_action(list: &mut ActionList, act: Action)
    ensures
        actions_of(*final(list)) == actions_of(*old(list)).push(act),
{
    list.list.push(act)
}

/// Indexing a `SmallVec` gives the action at that place.
#[verifier::external_body]
fn action_at(list: &ActionList, k: usize) -> (act: Action)
    requires
        k < actions_of(*list).len(),
    ensures
        act == actions_of(*list)[k as int],
{
    list.list[k]
}

impl ProgState {
    fn for_cursor(id: usize, cursor: usize) -> (s: Self)
        ensures
            s@ == fresh(id as nat, cursor as nat),
            s.id == id,
            s.cursor == cursor,
            s.count == 0,
    {
        ProgState { id, cursor, count: 0, done_in_scope: false }
    }
}

/// The step that a program looks for.
fn step_of<'a>(programs: &[&'a Program], s: ProgState) -> (r: Option<&'a Step>)
    requires
        s.id < programs@.len(),
    ensures
        match r {
            Some(step) => step_at(programs@[s.id as int]@, s@) == Some(step@) && s.cursor
                < programs@[s.id as int].steps@.len() && *step
                == programs@[s.id as int].steps@[s.cursor as int],
            None => step_at(programs@[s.id as int]@, s@) is None,
        },
{
    let program: &'a Program = programs[s.id];
    proof {
        lemma_steps_view(program.steps@);
    }
    if s.cursor < program.steps.len() {
        Some(&program.steps[s.cursor])
    } else {
        None
    }
}

/// The steps behind the one that a program looks for.
fn rest_of<'a>(programs: &[&'a Program], s: ProgState) -> (r: &'a [Step])
    requires
        s.id < programs@.len(),
        s.cursor < programs@[s.id as int].steps@.len(),
    ensures
        steps_view(r@) == rest_at(programs@[s.id as int]@, s@),
{
    let program: &'a Program = programs[s.id];
    let n = program.steps.len();
    let r: &'a [Step] = vstd::slice::slice_subrange(program.steps.as_slice(), s.cursor + 1, n);
    proof {
        lemma_steps_view_skip(program.steps@, s.cursor + 1);
        assert(r@ =~= program.steps@.skip(s.cursor + 1));
    }
    r
}

/// The step that a program looks for, and those behind it.
fn steps_from<'a>(programs: &[&'a Program], s: ProgState) -> (r: &'a [Step])
    requires
        s.id < programs@.len(),
        s.cursor < programs@[s.id as int].steps@.len(),
    ensures
        steps_view(r@) == programs@[s.id as int]@.steps.skip(s.cursor as int),
        r@.len() > 0,
        r@[0] == programs@[s.id as int].steps@[s.cursor as int],
{
    let program: &'a Program = programs[s.id];
    let n = program.steps.len();
    let r: &'a [Step] = vstd::slice::slice_subrange(program.steps.as_slice(), s.cursor, n);
    proof {
        lemma_steps_view_skip(program.steps@, s.cursor as int);
        assert(r@ =~= program.steps@.skip(s.cursor as int));
    }
    r
}

/// What one program does with an element, once it has seen its tag.
fn choose_action(tag: &Tag, programs: &[&Program], s: &mut ProgState) -> (r: Result<
    Action,
    String,
>)
    requires
        old(s).id < programs@.len(),
        old(s).cursor <= programs@[old(s).id as int].steps@.len(),
        old(s).count < usize::MAX,
    ensures
        final(s).id == old(s).id,
        final(s).cursor == old(s).cursor,
        final(s).count <= old(s).count + 1,
        ({
            let program = programs@[old(s).id as int]@;
            match r {
                Ok(act) => {
                    &&& act == action(program, old(s)@, tag@)
                    &&& final(s)@ == bumped(program, old(s)@, tag@)
                    &&& !(old(s)@.count > 0 && bare_before_steps(program, old(s)@) && state_hits(
                        program,
                        old(s)@,
                        tag@,
                    ))
                },
                Err(name) => {
                    &&& old(s)@.count > 0 && bare_before_steps(program, old(s)@) && state_hits(
                        program,
                        old(s)@,
                        tag@,
                    )
                    &&& step_at(program, old(s)@) matches Some(StepV::Child { name: n, .. })
                    &&& name@ == n.source()
                },
            }
        }),
{
    if s.done_in_scope {
        return Ok(Action::Skip);
    }
    match step_of(programs, *s) {
        Some(Step::Child { name, index, descendant }) => {
            if !matches_tag(name, tag) {
                return Ok(
                    if *descendant {
                        Action::DescendantFollow
                    } else {
                        Action::Skip
                    },
                );
            }
            let rest = rest_of(programs, *s);
            proof {
                lemma_steps_view(rest@);
            }
            let count = s.count;
            s.count = count + 1;
            if let ChildIndex::Nth(n) = index {
                s.done_in_scope = count == *n;
            }
            if *descendant {
                return Ok(
                    if let ChildIndex::Each = index {
                        Action::Explore
                    } else {
                        Action::Search
                    },
                );
            }
            let select = if rest.len() == 0 {
                Action::EmitTerminal
            } else {
                Action::Descend
            };
            match index {
                ChildIndex::Count => Ok(Action::ConsumeForCount),
                ChildIndex::Nth(n) => Ok(
                    if count == *n {
                        select
                    } else {
                        Action::Skip
                    },
                ),
                ChildIndex::Auto => {
                    if rest.len() > 0 && count > 0 {
                        return Err(copy_text(name.as_source()));
                    }
                    Ok(select)
                },
                ChildIndex::Each => Ok(select),
                _ => Ok(Action::CaptureFilter),
            }
        },
        _ => Ok(Action::Skip),
    }
}

/// What all programs do with an element, once they have seen its tag.
fn choose_actions(tag: &Tag, programs: &[&Program], states: &mut Vec<ProgState>, bound: Ghost<int>) -> (r:
    Result<ActionList, String>)
    requires
        states_ok(programs@, old(states)@, bound@),
        bound@ < usize::MAX,
    ensures
        states_ok(programs@, final(states)@, bound@ + 1),
        final(states)@.len() == old(states)@.len(),
        match r {
            Ok(acts) => {
                &&& ambiguous(programs_view(programs@), states_view(old(states)@), tag@) is None
                &&& actions_of(acts) == actions(
                    programs_view(programs@),
                    states_view(old(states)@),
                    tag@,
                )
                &&& states_view(final(states)@) == all_bumped(
                    programs_view(programs@),
                    states_view(old(states)@),
                    tag@,
                )
            },
            Err(name) => ambiguous(programs_view(programs@), states_view(old(states)@), tag@)
                == Some(name@),
        },
{
    let ghost ps = programs_view(programs@);
    let ghost before = states@;
    let ghost view = states_view(before);
    let ghost bumps = all_bumped(ps, view, tag@);
    let ghost acts_all = actions(ps, view, tag@);
    let mut acts = no_actions();
    let mut k: usize = 0;
    assert(view.skip(0) =~= view);
    while k < states.len()
        invariant
            ps == programs_view(programs@),
            view == states_view(before),
            bumps == all_bumped(ps, view, tag@),
            acts_all == actions(ps, view, tag@),
            states@.len() == before.len(),
            before == old(states)@,
            k <= states@.len(),
            states_ok(programs@, before, bound@),
            bound@ < usize::MAX,
            forall|j: int| k <= j < states@.len() ==> states@[j] == before[j],
            forall|j: int| 0 <= j < k ==> (#[trigger] states@[j])@ == bumps[j],
            states_ok(programs@, states@, bound@ + 1),
            actions_of(acts) == acts_all.take(k as int),
            ambiguous(ps, view, tag@) == ambiguous(ps, view.skip(k as int), tag@),
        decreases states@.len() - k,
    {
        let mut s = states[k];
        assert(s == before[k as int]);
        proof {
            assert(view.skip(k as int)[0] == s@);
            assert(view.skip(k as int).skip(1) =~= view.skip(k + 1));
            assert(ps[s.id as int] == programs@[s.id as int]@);
        }
        match choose_action(tag, programs, &mut s) {
            Ok(act) => {
                add_action(&mut acts, act);
                states[k] = s;
                assert(acts_all.take(k + 1) =~= acts_all.take(k as int).push(acts_all[k as int]));
            },
            Err(name) => {
                return Err(name);
            },
        }
        k = k + 1;
    }
    proof {
        assert(view.skip(k as int).len() == 0);
        assert(acts_all.take(k as int) =~= acts_all);
        assert(states_view(states@) =~= bumps);
    }
    Ok(acts)
}

/// Whether a selector by name and place takes the `count`-th match.
spec fn takes(index: IndexV, count: nat) -> bool {
    match index {
        IndexV::Nth(n) => count == n + 1,
        _ => true,
    }
}

/// Whether a selector by name and place looks for one element only.
spec fn takes_one(index: IndexV) -> bool {
    index is Nth
}

/// Whether a step selects children by their name and place alone.
fn is_plain(step: &Step) -> (r: bool)
    ensures
        r == selects_plainly(step@),
{
    match step {
        Step::Child { index: ChildIndex::Auto, descendant: false, .. } => true,
        Step::Child { index: ChildIndex::Each, descendant: false, .. } => true,
        Step::Child { index: ChildIndex::Nth(_), descendant: false, .. } => true,
        _ => false,
    }
}

/// What a last step by name and place does with a matching child.
proof fn lemma_plain_hit(
    d: DocV,
    i: int,
    tag: TagV,
    step: StepV,
    index: IndexV,
    count: nat,
    place: nat,
    known: ReadingsV,
    sink: SinkV,
)
    requires
        selects_plainly(step),
        step matches StepV::Child { index: at, .. } && at == index,
    ensures
        ({
            let j = after(d.events, i, tag);
            let flow = if takes_one(index) {
                FlowV::Done
            } else {
                FlowV::Go
            };
            &&& hit(d, i, tag, seq![step], count, known, sink) == if takes(index, count) {
                Ran {
                    next: j,
                    sink: sink.push(place_at(d, i), ItemV::Element(fragment(d, i, j))),
                    flow,
                }
            } else {
                Ran { next: j, sink, flow: FlowV::Go }
            }
            &&& empty_hit(tag, place, seq![step], count, known, sink) == if takes(index, count) {
                Out { sink: sink.push(place, ItemV::Element(empty_element(tag))), flow }
            } else {
                Out { sink, flow: FlowV::Go }
            }
        }),
{
    let one = seq![step];
    let rest = one.subrange(1, 1);
    assert(rest.len() == 0);
    assert(one[0] == step);
    let h = start_hit(d, i, tag, one, count, known, sink);
    let r = descend(d, i, tag, rest, known, sink);
}

/// An element as a program keeps it.
fn shape_element(bytes: &[u8], shape: TerminalShape) -> (item: Item)
    ensures
        item@ == shaped(shape, ItemV::Element(bytes@)),
{
    match shape {
        TerminalShape::Element => Item::Element(copy_bytes(bytes)),
        TerminalShape::Text => Item::Text(extract_element_text(bytes)),
        TerminalShape::Count => {
            let empty: Vec<u8> = Vec::new();
            assert(empty@ =~= Seq::<u8>::empty());
            Item::Scalar(empty)
        },
    }
}

/// The children of a candidate that a step by name and place selects, as they
/// are collected.
struct Gathering {
    count: usize,
    items: Vec<Found>,
    /// Whether more children may be selected.
    open: bool,
}

/// What a gathering holds: `found` are the children as elements.
closed spec fn gathered(g: Gathering, shape: TerminalShape, found: Seq<FoundV>) -> bool {
    found_view(g.items@) == found.map_values(|f: FoundV| kept_as(shape, f))
}

impl Gathering {
    /// Counts a child with a matching name, and tells whether it is selected.
    fn counts(&mut self, index: &ChildIndex) -> (r: bool)
        requires
            old(self).count < usize::MAX,
        ensures
            final(self).count == old(self).count + 1,
            final(self).items == old(self).items,
            r == takes(index@, final(self).count as nat),
            final(self).open == (old(self).open && !(r && takes_one(index@))),
    {
        self.count = self.count + 1;
        match index {
            ChildIndex::Nth(n) => {
                if self.count - 1 == *n {
                    self.open = false;
                    true
                } else {
                    false
                }
            },
            _ => true,
        }
    }

    /// Adds a selected child.
    fn take(
        &mut self,
        place: usize,
        bytes: &[u8],
        shape: TerminalShape,
        found: Ghost<Seq<FoundV>>,
    )
        requires
            gathered(*old(self), shape, found@),
        ensures
            gathered(
                *final(self),
                shape,
                found@.push(FoundV { place: place as nat, item: ItemV::Element(bytes@) }),
            ),
            final(self).count == old(self).count,
            final(self).open == old(self).open,
    {
        let ghost before = found_view(self.items@);
        self.items.push(Found { place, item: shape_element(bytes, shape) });
        let ghost last = FoundV { place: place as nat, item: ItemV::Element(bytes@) };
        let ghost kept = kept_as(shape, last);
        assert(found_view(self.items@) =~= before.push(kept));
        assert(found@.push(last).map_values(|f: FoundV| kept_as(shape, f)) =~= found@.map_values(
            |f: FoundV| kept_as(shape, f),
        ).push(kept));
    }
}

/// Tests a candidate, which stands at the offset `base`, by the text of one
/// child and selects children of it, all in one reading.
fn eval_simple_child_filter_and_collect(
    bytes: &[u8],
    base: usize,
    pred: &NameMatcher,
    filter: &Filter,
    rest_step: &Step,
    shape: TerminalShape,
    known: &Readings,
    sink: &mut Sink,
) -> (r: bool)
    requires
        selects_plainly(rest_step@),
        base + bytes@.len() <= usize::MAX,
    ensures
        still_unknown(old(sink)@, final(sink)@, known@),
        (r, final(sink)@) == gathered_test(
            bytes@,
            base as nat,
            pred@,
            filter@,
            rest_step@,
            shape,
            known@,
            old(sink)@,
        ),
{
    let (name, index) = match rest_step {
        Step::Child { name, index, descendant: false } => (name, index),
        _ => {
            assert(false);
            return false;
        },
    };
    let ghost d = doc_at(bytes@, base as nat);
    let ghost one = seq![rest_step@];
    let mut scanner = Scanner::part(bytes, base);
    let mut g = Gathering { count: 0, items: Vec::new(), open: true };
    let ghost mut found: Seq<FoundV> = Seq::empty();
    let mut text: Option<Vec<u8>> = None;
    let ghost whole = within(bytes@, base as nat, one, known@, nothing()).sink.items;
    let ghost meant = child_text(d.events, 0, false, pred@);
    let mut entered = false;
    let mut reading = true;
    assert(found_view(g.items@) =~= found.map_values(|f: FoundV| kept_as(shape, f)));
    proof {
        scanner.lemma_wf();
    }
    while reading
        invariant
            scanner.wf(),
            scanner.doc() == d,
            d == doc_at(bytes@, base as nat),
            one == seq![rest_step@],
            selects_plainly(rest_step@),
            rest_step@ == (StepV::Child { name: name@, index: index@, descendant: false }),
            whole == within(bytes@, base as nat, one, known@, nothing()).sink.items,
            0 <= scanner.index() <= d.events.len() <= usize::MAX,
            g.count <= scanner.index(),
            gathered(g, shape, found),
            match text {
                Some(t) => meant == Some(t@),
                None => if reading {
                    meant == child_text(d.events, scanner.index(), entered, pred@)
                } else {
                    meant is None
                },
            },
            reading && !entered ==> text is None && g.open && found.len() == 0 && g.count == 0
                && first_tag(d.events, 0) == first_tag(d.events, scanner.index()),
            entered && g.open && reading ==> whole == scan(
                d,
                scanner.index(),
                one,
                g.count as nat,
                known@,
                SinkV { items: found, asked: Seq::empty() },
            ).sink.items,
            (!g.open || !reading) && meant is Some ==> whole == found,
        decreases
                d.events.len() - scanner.index() + (if reading {
                    1int
                } else {
                    0
                }),
    {
        let pos_before = scanner.position();
        let ghost i = scanner.index();
        let ghost so_far = SinkV { items: found, asked: Seq::empty() };
        proof {
            scanner.lemma_wf();
        }
        let place = scanner.base() + pos_before;
        match scanner.next() {
            XmlEvent::Start(tag) => {
                if !entered {
                    entered = true;
                    assert(so_far == nothing()) by {
                        assert(found =~= Seq::empty());
                    }
                    assert(enter(d, i + 1, Some(tag@), one, known@, nothing()) == scan(
                        d,
                        i + 1,
                        one,
                        0,
                        known@,
                        nothing(),
                    ));
                } else {
                    let selects = g.open && matches_tag(name, &tag);
                    proof {
                        lemma_plain_hit(
                            d,
                            i,
                            tag@,
                            rest_step@,
                            index@,
                            g.count as nat + 1,
                            place as nat,
                            known@,
                            so_far,
                        );
                    }
                    let takes_it = selects && g.counts(index);
                    if text.is_none() && matches_tag(pred, &tag) {
                        let mut inner = scanner.fork();
                        text = Some(read_text_in_scope(&mut inner));
                    }
                    scanner.skip_element(tag.name());
                    if takes_it {
                        let pos_after = scanner.position();
                        g.take(place, scanner.slice(pos_before, pos_after), shape, Ghost(found));
                        proof {
                            found = found.push(
                                FoundV {
                                    place: place as nat,
                                    item: ItemV::Element(fragment(d, i, scanner.index())),
                                },
                            );
                        }
                    }
                }
            },
            XmlEvent::Empty(tag) => {
                if !entered {
                    reading = false;
                } else {
                    if g.open && matches_tag(name, &tag) {
                        proof {
                            lemma_plain_hit(
                                d,
                                i,
                                tag@,
                                rest_step@,
                                index@,
                                g.count as nat + 1,
                                place as nat,
                                known@,
                                so_far,
                            );
                        }
                        if g.counts(index) {
                            let element = tag.to_empty_element();
                            g.take(place, element.as_slice(), shape, Ghost(found));
                            proof {
                                found = found.push(
                                    FoundV {
                                        place: place as nat,
                                        item: ItemV::Element(empty_element(tag@)),
                                    },
                                );
                            }
                        }
                    }
                    if text.is_none() && matches_tag(pred, &tag) {
                        let empty: Vec<u8> = Vec::new();
                        assert(empty@ =~= Seq::<u8>::empty());
                        text = Some(empty);
                    }
                }
            },
            XmlEvent::End(_) => {
                reading = false;
            },
            XmlEvent::Eof => {
                reading = false;
            },
            XmlEvent::Error => {
                if entered {
                    g.open = false;
                }
            },
            _ => {},
        }
    }
    let ghost sink0 = sink@;
    let pass = match &text {
        Some(text) => compare(
            utf8_or_empty(text.as_slice()),
            filter.op,
            &filter.value,
            known,
            &mut sink.asked,
        ),
        None => {
            assert(sink0.asked + Seq::<Seq<char>>::empty() =~= sink0.asked);
            false
        },
    };
    assert(sink@ == sink0.ask(child_test(bytes@, pred@, filter@, known@).1));
    if pass {
        let ghost mid = sink@;
        let mut selected = g.items;
        sink.items.append(&mut selected);
        assert(sink@.items =~= mid.items + whole.map_values(|f: FoundV| kept_as(shape, f)));
    }
    pass
}

/// Whether some program has to look inside the element.
fn needs_descent(acts: &ActionList, n: usize) -> (r: bool)
    requires
        n == actions_of(*acts).len(),
    ensures
        r == any_inside(actions_of(*acts)),
{
    for k in 0..n
        invariant
            n == actions_of(*acts).len(),
            forall|j: int| 0 <= j < k ==> !goes_inside(#[trigger] actions_of(*acts)[j]),
    {
        let act = action_at(acts, k);
        if act == Action::Descend || act == Action::DescendantFollow {
            assert(goes_inside(actions_of(*acts)[k as int]));
            return true;
        }
    }
    false
}

/// The programs that look inside an element, and where they stand there.
fn states_inside(programs: &[&Program], states: &Vec<ProgState>, acts: &ActionList) -> (r: Vec<
    ProgState,
>)
    requires
        states@.len() == actions_of(*acts).len(),
        forall|k: int|
            0 <= k < states@.len() ==> (#[trigger] states@[k]).id < programs@.len()
                && states@[k].cursor <= programs@[states@[k].id as int].steps@.len(),
        all_act(programs@, states@, actions_of(*acts)),
    ensures
        states_view(r@) == inside(states_view(states@), actions_of(*acts)),
        states_ok(programs@, r@, 0),
{
    let ghost view = states_view(states@);
    let ghost all = actions_of(*acts);
    let mut r: Vec<ProgState> = Vec::new();
    assert(states_view(r@) =~= inside(view.take(0), all));
    for k in 0..states.len()
        invariant
            view == states_view(states@),
            all == actions_of(*acts),
            states@.len() == all.len(),
            states_view(r@) == inside(view.take(k as int), all),
            states_ok(programs@, r@, 0),
            forall|k: int|
                0 <= k < states@.len() ==> (#[trigger] states@[k]).id < programs@.len()
                    && states@[k].cursor <= programs@[states@[k].id as int].steps@.len(),
            all_act(programs@, states@, all),
    {
        let s = states[k];
        let ghost before = r@;
        assert(view.take(k + 1).drop_last() =~= view.take(k as int));
        assert(view.take(k + 1).last() == s@);
        match action_at(acts, k) {
            Action::Descend => {
                assert(all[k as int] == Action::Descend);
                assert(programs@[s.id as int].steps.len() == programs@[s.id as int].steps@.len());
                r.push(ProgState::for_cursor(s.id, s.cursor + 1));
                assert(states_view(r@) =~= states_view(before).push(r@.last()@));
            },
            Action::DescendantFollow => {
                r.push(ProgState::for_cursor(s.id, s.cursor));
                assert(states_view(r@) =~= states_view(before).push(r@.last()@));
            },
            _ => {},
        }
    }
    assert(view.take(states@.len() as int) =~= view);
    r
}

/// Adds an entry to what a program has collected.
fn push_out(outs: &mut Vec<Sink>, id: usize, place: usize, item: Item)
    requires
        id < old(outs)@.len(),
    ensures
        outs_view(final(outs)@) == outs_view(old(outs)@).update(
            id as int,
            outs_view(old(outs)@)[id as int].push(place as nat, item@),
        ),
        final(outs)@.len() == old(outs)@.len(),
        forall|known: ReadingsV|
            outs_unknown(outs_view(old(outs)@), known) ==> #[trigger] outs_unknown(
                outs_view(final(outs)@),
                known,
            ),
{
    let ghost before = outs_view(outs@);
    outs[id].push(place, item);
    assert(outs_view(outs@) =~= before.update(
        id as int,
        before[id as int].push(place as nat, item@),
    ));
    assert forall|known: ReadingsV| outs_unknown(before, known) implies #[trigger] outs_unknown(
        outs_view(outs@),
        known,
    ) by {
        assert forall|k: int| 0 <= k < outs_view(outs@).len() implies all_unknown(
            (#[trigger] outs_view(outs@)[k]).asked,
            known,
        ) by {
            assert(outs_view(outs@)[k].asked == before[k].asked);
        }
    }
}

/// The tag of the element that is entered, if there is one.
pub open spec fn tag_view(current: Option<&Tag>) -> Option<TagV> {
    match current {
        Some(tag) => Some(tag@),
        None => None,
    }
}

/// Whether some program looks for text.
fn wants_some_text(programs: &[&Program], states: &Vec<ProgState>) -> (r: bool)
    requires
        states_ok(programs@, states@, 0),
    ensures
        !r ==> forall|k: int|
            0 <= k < states@.len() ==> !(step_at(
                programs_view(programs@)[(#[trigger] states@[k]).id as int],
                states@[k]@,
            ) matches Some(StepV::Text)),
{
    let ghost ps = programs_view(programs@);
    for k in 0..states.len()
        invariant
            ps == programs_view(programs@),
            states_ok(programs@, states@, 0),
            forall|j: int|
                0 <= j < k ==> !(step_at(
                    ps[(#[trigger] states@[j]).id as int],
                    states@[j]@,
                ) matches Some(StepV::Text)),
    {
        let s = states[k];
        assert(ps[s.id as int] == programs@[s.id as int]@);
        if let Some(Step::Text) = step_of(programs, s) {
            return true;
        }
    }
    false
}

/// Where no program looks for text, it does not matter which text there is.
proof fn lemma_text_unused(
    current: Option<TagV>,
    place: nat,
    text: Seq<u8>,
    other: Seq<u8>,
    programs: Seq<ProgramV>,
    states: Seq<StateV>,
    outs: Seq<SinkV>,
)
    requires
        forall|k: int|
            0 <= k < states.len() ==> !(step_at(
                programs[(#[trigger] states[k]).id as int],
                states[k],
            ) matches Some(StepV::Text)),
    ensures
        values_selected(current, place, text, programs, states, outs) == values_selected(
            current,
            place,
            other,
            programs,
            states,
            outs,
        ),
    decreases states.len(),
{
    if states.len() > 0 {
        assert(states.last() == states[states.len() - 1]);
        assert forall|k: int| 0 <= k < states.drop_last().len() implies !(step_at(
            programs[(#[trigger] states.drop_last()[k]).id as int],
            states.drop_last()[k],
        ) matches Some(StepV::Text)) by {
            assert(states.drop_last()[k] == states[k]);
        }
        lemma_text_unused(current, place, text, other, programs, states.drop_last(), outs);
    }
}

/// Collects what programs that look for an attribute or for text select as they
/// enter an element at a place, or the document, and keeps the other programs.
fn collect_many_attr_text(
    current: Option<&Tag>,
    place: usize,
    text: &[u8],
    programs: &[&Program],
    states: Vec<ProgState>,
    outs: &mut Vec<Sink>,
) -> (kept: Vec<ProgState>)
    requires
        states_ok(programs@, states@, 0),
        old(outs)@.len() == programs@.len(),
    ensures
        final(outs)@.len() == programs@.len(),
        outs_view(final(outs)@) == values_selected(
            tag_view(current),
            place as nat,
            text@,
            programs_view(programs@),
            states_view(states@),
            outs_view(old(outs)@),
        ),
        states_view(kept@) == not_terminal(programs_view(programs@), states_view(states@)),
        states_ok(programs@, kept@, 0),
        forall|known: ReadingsV|
            outs_unknown(outs_view(old(outs)@), known) ==> #[trigger] outs_unknown(
                outs_view(final(outs)@),
                known,
            ),
{
    let ghost ps = programs_view(programs@);
    let ghost view = states_view(states@);
    let ghost outs0 = outs_view(outs@);
    let mut kept: Vec<ProgState> = Vec::new();
    assert(states_view(kept@) =~= not_terminal(ps, view.take(0)));
    for k in 0..states.len()
        invariant
            ps == programs_view(programs@),
            view == states_view(states@),
            states_ok(programs@, states@, 0),
            outs@.len() == programs@.len(),
            outs_view(outs@) == values_selected(
                tag_view(current),
                place as nat,
                text@,
                ps,
                view.take(k as int),
                outs0,
            ),
            states_view(kept@) == not_terminal(ps, view.take(k as int)),
            states_ok(programs@, kept@, 0),
            forall|known: ReadingsV|
                outs_unknown(outs0, known) ==> #[trigger] outs_unknown(outs_view(outs@), known),
    {
        let s = states[k];
        let ghost before = kept@;
        assert(view.take(k + 1).drop_last() =~= view.take(k as int));
        assert(view.take(k + 1).last() == s@);
        assert(ps[s.id as int] == programs@[s.id as int]@);
        match step_of(programs, s) {
            Some(Step::Attribute(name)) => {
                if let Some(tag) = current {
                    if let Some(value) = tag.attr(name.as_str()) {
                        push_out(outs, s.id, place, Item::Scalar(value));
                    }
                }
            },
            Some(Step::Text) => {
                push_out(outs, s.id, place, Item::Scalar(copy_bytes(text)));
            },
            _ => {
                kept.push(s);
                assert(states_view(kept@) =~= states_view(before).push(s@));
            },
        }
    }
    assert(view.take(states@.len() as int) =~= view);
    kept
}

/// Collects what programs select as they enter an element at a place, whose
/// start tag has just been read, and keeps the programs that look for children.
fn open_scope(
    scanner: &Scanner,
    tag: &Tag,
    place: usize,
    programs: &[&Program],
    states: Vec<ProgState>,
    outs: &mut Vec<Sink>,
) -> (kept: Vec<ProgState>)
    requires
        scanner.wf(),
        scanner.index() > 0,
        place == place_at(scanner.doc(), scanner.index() - 1),
        states_ok(programs@, states@, 0),
        old(outs)@.len() == programs@.len(),
    ensures
        final(outs)@.len() == programs@.len(),
        outs_view(final(outs)@) == values_selected(
            Some(tag@),
            place as nat,
            scope_text(scanner.events(), scanner.index(), 1),
            programs_view(programs@),
            states_view(states@),
            outs_view(old(outs)@),
        ),
        states_view(kept@) == not_terminal(programs_view(programs@), states_view(states@)),
        states_ok(programs@, kept@, 0),
        forall|known: ReadingsV|
            outs_unknown(outs_view(old(outs)@), known) ==> #[trigger] outs_unknown(
                outs_view(final(outs)@),
                known,
            ),
{
    let ghost ps = programs_view(programs@);
    let ghost inner = states_view(states@);
    let text = if wants_some_text(programs, &states) {
        let mut reader = scanner.fork();
        read_text_in_scope(&mut reader)
    } else {
        let none: Vec<u8> = Vec::new();
        proof {
            assert forall|k: int| 0 <= k < inner.len() implies !(step_at(
                ps[(#[trigger] inner[k]).id as int],
                inner[k],
            ) matches Some(StepV::Text)) by {
                assert(inner[k] == states@[k]@);
            }
            lemma_text_unused(
                Some(tag@),
                place as nat,
                none@,
                scope_text(scanner.events(), scanner.index(), 1),
                ps,
                inner,
                outs_view(outs@),
            );
        }
        none
    };
    collect_many_attr_text(Some(tag), place, text.as_slice(), programs, states, outs)
}

/// Collects the counts at the end of a scope, which is at a place.
fn collect_counts(
    programs: &[&Program],
    states: &Vec<ProgState>,
    place: usize,
    outs: &mut Vec<Sink>,
    Ghost(bound): Ghost<int>,
)
    requires
        states_ok(programs@, states@, bound),
        old(outs)@.len() == programs@.len(),
    ensures
        final(outs)@.len() == programs@.len(),
        outs_view(final(outs)@) == counts_selected(
            programs_view(programs@),
            states_view(states@),
            place as nat,
            outs_view(old(outs)@),
        ),
        forall|known: ReadingsV|
            outs_unknown(outs_view(old(outs)@), known) ==> #[trigger] outs_unknown(
                outs_view(final(outs)@),
                known,
            ),
{
    let ghost ps = programs_view(programs@);
    let ghost view = states_view(states@);
    let ghost outs0 = outs_view(outs@);
    assert(view.take(0).len() == 0);
    for k in 0..states.len()
        invariant
            ps == programs_view(programs@),
            view == states_view(states@),
            states_ok(programs@, states@, bound),
            outs@.len() == programs@.len(),
            outs_view(outs@) == counts_selected(ps, view.take(k as int), place as nat, outs0),
            forall|known: ReadingsV|
                outs_unknown(outs0, known) ==> #[trigger] outs_unknown(outs_view(outs@), known),
    {
        let s = states[k];
        assert(view.take(k + 1).drop_last() =~= view.take(k as int));
        assert(view.take(k + 1).last() == s@);
        assert(ps[s.id as int] == programs@[s.id as int]@);
        if let Some(Step::Child { index: ChildIndex::Count, .. }) = step_of(programs, s) {
            push_out(outs, s.id, place, Item::Scalar(decimal_bytes(s.count)));
        }
    }
    assert(view.take(states@.len() as int) =~= view);
}

/// How a step on one program ended: where it stands, and whether the pass goes
/// on.
closed spec fn is_one(r: Result<ProgState, Stop>, sink: SinkV, one: OneV) -> bool {
    &&& sink == one.sink
    &&& match r {
        Ok(s) => one.flow is Go && s@ == one.state,
        Err(stop) => one.flow == flow_of(Err(stop)) && one.flow is Ambiguous,
    }
}

/// Where a program stands once its step has handled an element.
fn handle(s: ProgState, ended: Result<(), Stop>) -> (r: Result<ProgState, Stop>)
    ensures
        forall|sink: SinkV| is_one(r, sink, #[trigger] handled(s@, sink, flow_of(ended))),
        r matches Ok(t) ==> t.id == s.id && t.cursor == s.cursor && t.count == s.count,
{
    match ended {
        Ok(()) => Ok(s),
        Err(Stop::Done) => Ok(ProgState { done_in_scope: true, ..s }),
        Err(stop) => Err(stop),
    }
}

/// Tests a candidate whose start tag has just been read with the filter of a
/// program's step, and selects the rest of the steps inside it where it passes.
fn complete_filter(
    scanner: &mut Scanner,
    tag: &Tag,
    pos_before: usize,
    programs: &[&Program],
    s: ProgState,
    known: &Readings,
    sink: &mut Sink,
) -> (r: Result<(), Stop>)
    requires
        old(scanner).wf(),
        old(scanner).index() > 0,
        pos_before == pos_at(old(scanner).events(), old(scanner).index() - 1),
        s.id < programs@.len(),
        s.cursor < programs@[s.id as int].steps@.len(),
        filter_of(programs@[s.id as int]@.steps[s.cursor as int]) is Some,
    ensures
        still_unknown(old(sink)@, final(sink)@, known@),
        ({
            let ran = filtered(
                old(scanner).doc(),
                old(scanner).index() - 1,
                tag@,
                programs@[s.id as int]@,
                s@,
                known@,
                old(sink)@,
            );
            &&& final(sink)@ == ran.sink
            &&& flow_of(r) == ran.flow
        }),
{
    let ghost program = programs@[s.id as int]@;
    let steps = steps_from(programs, s);
    let rest = rest_of(programs, s);
    proof {
        scanner.lemma_wf();
        lemma_steps_view(programs@[s.id as int].steps@);
        lemma_steps_view(steps@);
        lemma_steps_view(rest@);
        assert(steps_view(steps@)[0] == steps@[0]@);
        assert(program.steps[s.cursor as int] == steps@[0]@);
        if rest@.len() > 0 {
            assert(rest_at(program, s@)[0] == rest@[0]@);
        }
    }
    let (filter, first) = match &steps[0] {
        Step::Child { index: ChildIndex::FilterFirst(filter), .. } => (filter, true),
        Step::Child { index: ChildIndex::FilterAll(filter), .. } => (filter, false),
        _ => {
            assert(false);
            return Ok(());
        },
    };
    if filter.attr_only.is_none() && rest.len() == 1 && is_plain(&rest[0]) {
        if let Some(pred) = simple_child_filter(filter) {
            scanner.skip_element(tag.name());
            let pos_after = scanner.position();
            let pass = eval_simple_child_filter_and_collect(
                scanner.slice(pos_before, pos_after),
                scanner.base() + pos_before,
                pred,
                filter,
                &rest[0],
                programs[s.id].terminal_shape,
                known,
                sink,
            );
            return if pass && first {
                Err(Stop::Done)
            } else {
                Ok(())
            };
        }
    }
    handle_filter_start(scanner, tag, steps, filter, first, known, sink, pos_before)
}

/// Captures a selected element that has been read through.
fn capture(
    scanner: &Scanner,
    pos_before: usize,
    pos_after: usize,
    shape: TerminalShape,
    borrowable: bool,
    Ghost(i): Ghost<int>,
) -> (item: Item)
    requires
        scanner.wf(),
        0 <= i < scanner.index(),
        pos_before == pos_at(scanner.events(), i),
        pos_after == pos_at(scanner.events(), scanner.index()),
    ensures
        item@ == captured(scanner.doc(), i, scanner.index(), shape, borrowable),
{
    proof {
        scanner.lemma_wf();
    }
    if borrowable && shape == TerminalShape::Element {
        Item::ElementRef { start: pos_before as u32, end: pos_after as u32 }
    } else {
        let bytes = scanner.slice(pos_before, pos_after);
        assert(bytes@ == fragment(scanner.doc(), i, scanner.index()));
        shape_element(bytes, shape)
    }
}

/// Selects an element that has been read through for one program.
fn select_element(
    scanner: &Scanner,
    pos_before: usize,
    programs: &[&Program],
    id: usize,
    borrowable: bool,
    outs: &mut Vec<Sink>,
    Ghost(i): Ghost<int>,
)
    requires
        scanner.wf(),
        0 <= i < scanner.index(),
        pos_before == pos_at(scanner.events(), i),
        id < programs@.len(),
        old(outs)@.len() == programs@.len(),
    ensures
        outs_view(final(outs)@) == outs_view(old(outs)@).update(
            id as int,
            outs_view(old(outs)@)[id as int].push(
                place_at(scanner.doc(), i),
                captured(
                    scanner.doc(),
                    i,
                    scanner.index(),
                    programs@[id as int].terminal_shape,
                    borrowable,
                ),
            ),
        ),
        final(outs)@.len() == old(outs)@.len(),
        forall|known: ReadingsV|
            outs_unknown(outs_view(old(outs)@), known) ==> #[trigger] outs_unknown(
                outs_view(final(outs)@),
                known,
            ),
{
    proof {
        scanner.lemma_wf();
    }
    let pos_after = scanner.position();
    let shape = programs[id].terminal_shape;
    let item = capture(scanner, pos_before, pos_after, shape, borrowable, Ghost(i));
    push_out(outs, id, scanner.base() + pos_before, item);
}

/// A program that tests an element or searches it stands at one of its steps.
closed spec fn acts_on(program: &Program, s: ProgState, act: Action) -> bool {
    &&& act == Action::CaptureFilter ==> s.cursor < program.steps@.len() && filter_of(
        program@.steps[s.cursor as int],
    ) is Some
    &&& act == Action::Search ==> s.cursor < program.steps@.len() && s.count > 0
    &&& act == Action::Descend ==> s.cursor < program.steps@.len()
    &&& act == Action::Explore ==> s.cursor < program.steps@.len()
}

/// Completes an element for one program, once it has been read through.
fn complete_one(
    scanner: &Scanner,
    opened: &Scanner,
    tag: &Tag,
    pos_before: usize,
    programs: &[&Program],
    s: ProgState,
    act: Action,
    borrowable: bool,
    known: &Readings,
    sink: &mut Sink,
    Ghost(i): Ghost<int>,
) -> (r: Result<ProgState, Stop>)
    requires
        scanner.wf(),
        opened.wf(),
        opened.doc() == scanner.doc(),
        opened.index() == i + 1,
        0 <= i < scanner.index(),
        pos_before == pos_at(scanner.events(), i),
        s.id < programs@.len(),
        s.cursor <= programs@[s.id as int].steps@.len(),
        acts_on(programs@[s.id as int], s, act),
    ensures
        still_unknown(old(sink)@, final(sink)@, known@),
        is_one(
            r,
            final(sink)@,
            completed(
                scanner.doc(),
                i,
                scanner.index(),
                tag@,
                programs@[s.id as int]@,
                s@,
                act,
                borrowable,
                known@,
                old(sink)@,
            ),
        ),
        r matches Ok(t) ==> t.id == s.id && t.cursor == s.cursor && t.count == s.count,
{
    proof {
        scanner.lemma_wf();
    }
    match act {
        Action::EmitTerminal => {
            let pos_after = scanner.position();
            let shape = programs[s.id].terminal_shape;
            let item = capture(scanner, pos_before, pos_after, shape, borrowable, Ghost(i));
            sink.push(scanner.base() + pos_before, item);
            Ok(s)
        },
        Action::CaptureFilter => {
            let mut inner = opened.fork();
            let ended = complete_filter(&mut inner, tag, pos_before, programs, s, known, sink);
            handle(s, ended)
        },
        Action::Search => {
            let mut inner = opened.fork();
            let steps = steps_from(programs, s);
            let ended = handle_hit(&mut inner, tag, steps, s.count, known, sink, pos_before);
            handle(s, ended)
        },
        _ => Ok(s),
    }
}

/// How a part of a pass ended for all programs.
closed spec fn is_many(
    r: Result<(), Stop>,
    states: Seq<ProgState>,
    outs: Seq<Sink>,
    many: ManyV,
) -> bool {
    match r {
        Ok(()) => many.flow is Go && states_view(states) == many.states && outs_view(outs)
            == many.outs,
        Err(stop) => many.flow == flow_of(Err(stop)) && many.flow is Ambiguous && asks_of(outs_view(outs))
            == asks_of(many.outs),
    }
}

/// The numerals that the programs ask for, one program after the other.
pub open spec fn asks_of(outs: Seq<SinkV>) -> Seq<Seq<char>>
    decreases outs.len(),
{
    if outs.len() == 0 {
        Seq::empty()
    } else {
        asks_of(outs.drop_last()) + outs.last().asked
    }
}

/// Every program that tests an element or searches it stands at one of its
/// steps.
closed spec fn all_act(programs: Seq<&Program>, states: Seq<ProgState>, acts: Seq<Action>) -> bool {
    forall|k: int|
        #![trigger acts[k]]
        0 <= k < states.len() ==> acts_on(programs[states[k].id as int], states[k], acts[k])
}

/// Completes an element for all programs, once it has been read through.
fn complete_all(
    scanner: &Scanner,
    opened: &Scanner,
    tag: &Tag,
    pos_before: usize,
    programs: &[&Program],
    states: &mut Vec<ProgState>,
    acts: &ActionList,
    borrowable: bool,
    known: &Readings,
    outs: &mut Vec<Sink>,
    Ghost(i): Ghost<int>,
    Ghost(bound): Ghost<int>,
) -> (r: Result<(), Stop>)
    requires
        scanner.wf(),
        opened.wf(),
        opened.doc() == scanner.doc(),
        opened.index() == i + 1,
        0 <= i < scanner.index(),
        pos_before == pos_at(scanner.events(), i),
        states_ok(programs@, old(states)@, bound),
        old(outs)@.len() == programs@.len(),
        old(states)@.len() == actions_of(*acts).len(),
        outs_unknown(outs_view(old(outs)@), known@),
        all_act(programs@, old(states)@, actions_of(*acts)),
    ensures
        states_ok(programs@, final(states)@, bound),
        final(states)@.len() == old(states)@.len(),
        all_act(programs@, final(states)@, actions_of(*acts)),
        final(outs)@.len() == programs@.len(),
        outs_unknown(outs_view(final(outs)@), known@),
        is_many(
            r,
            final(states)@,
            final(outs)@,
            all_completed(
                scanner.doc(),
                i,
                scanner.index(),
                tag@,
                programs_view(programs@),
                states_view(old(states)@),
                actions_of(*acts),
                borrowable,
                known@,
                outs_view(old(outs)@),
                old(states)@.len(),
            ),
        ),
{
    let ghost ps = programs_view(programs@);
    let ghost before = states@;
    let ghost view = states_view(before);
    let ghost all = actions_of(*acts);
    let ghost outs0 = outs_view(outs@);
    let mut k: usize = 0;
    while k < states.len()
        invariant
            scanner.wf(),
            opened.wf(),
            opened.doc() == scanner.doc(),
            opened.index() == i + 1,
            0 <= i < scanner.index(),
            pos_before == pos_at(scanner.events(), i),
            ps == programs_view(programs@),
            before == old(states)@,
            view == states_view(before),
            all == actions_of(*acts),
            outs0 == outs_view(old(outs)@),
            states@.len() == before.len(),
            before.len() == all.len(),
            k <= states@.len(),
            states_ok(programs@, states@, bound),
            states_ok(programs@, before, bound),
            outs@.len() == programs@.len(),
            outs_unknown(outs_view(outs@), known@),
            forall|j: int| k <= j < states@.len() ==> states@[j] == before[j],
            all_act(programs@, before, all),
            all_act(programs@, states@, all),
            ({
                let m = all_completed(
                    scanner.doc(),
                    i,
                    scanner.index(),
                    tag@,
                    ps,
                    view,
                    all,
                    borrowable,
                    known@,
                    outs0,
                    k as nat,
                );
                &&& m.flow is Go
                &&& m.states == states_view(states@)
                &&& m.outs == outs_view(outs@)
            }),
        decreases states@.len() - k,
    {
        let s = states[k];
        let id = s.id;
        let ghost mid = outs_view(outs@);
        let ghost mid_states = states_view(states@);
        assert(s == before[k as int]);
        assert(view[k as int] == s@);
        assert(ps[id as int] == programs@[id as int]@);
        assert(mid[id as int] == outs@[id as int]@);
        let act = action_at(acts, k);
        let one = complete_one(
            scanner,
            opened,
            tag,
            pos_before,
            programs,
            s,
            act,
            borrowable,
            known,
            &mut outs[id],
            Ghost(i),
        );
        proof {
            let sink = outs_view(outs@)[id as int];
            assert(outs_view(outs@) =~= mid.update(id as int, sink));
            assert forall|j: int| 0 <= j < outs_view(outs@).len() implies all_unknown(
                (#[trigger] outs_view(outs@)[j]).asked,
                known@,
            ) by {
                if j != id {
                    assert(outs_view(outs@)[j] == mid[j]);
                } else {
                    assert(all_unknown(mid[j].asked, known@));
                }
            }
            reveal_with_fuel(all_completed, 2);
        }
        match one {
            Ok(next) => {
                states[k] = next;
                assert(states_view(states@) =~= mid_states.update(k as int, next@));
            },
            Err(stop) => {
                proof {
                    let m = all_completed(
                        scanner.doc(),
                        i,
                        scanner.index(),
                        tag@,
                        ps,
                        view,
                        all,
                        borrowable,
                        known@,
                        outs0,
                        (k + 1) as nat,
                    );
                    lemma_completed_stops(
                        scanner.doc(),
                        i,
                        scanner.index(),
                        tag@,
                        ps,
                        view,
                        all,
                        borrowable,
                        known@,
                        outs0,
                        (k + 1) as nat,
                        view.len(),
                    );
                    assert(m.outs == outs_view(outs@));
                }
                return Err(stop);
            },
        }
        k = k + 1;
    }
    Ok(())
}

/// Once a program stops the pass, the programs behind it do nothing.
proof fn lemma_completed_stops(
    d: DocV,
    i: int,
    j: int,
    tag: TagV,
    programs: Seq<ProgramV>,
    states: Seq<StateV>,
    acts: Seq<Action>,
    borrowable: bool,
    known: ReadingsV,
    outs: Seq<SinkV>,
    n: nat,
    m: nat,
)
    requires
        n <= m,
        all_completed(d, i, j, tag, programs, states, acts, borrowable, known, outs, n).flow !is Go,
    ensures
        all_completed(d, i, j, tag, programs, states, acts, borrowable, known, outs, m)
            == all_completed(d, i, j, tag, programs, states, acts, borrowable, known, outs, n),
    decreases m,
{
    if n < m {
        lemma_completed_stops(
            d,
            i,
            j,
            tag,
            programs,
            states,
            acts,
            borrowable,
            known,
            outs,
            n,
            (m - 1) as nat,
        );
    }
}

/// What the actions say of where the programs stand.
proof fn lemma_actions(
    programs: Seq<&Program>,
    states: Seq<ProgState>,
    bumps: Seq<ProgState>,
    tag: TagV,
    bound: int,
)
    requires
        states_ok(programs, states, bound),
        states_view(bumps) == all_bumped(programs_view(programs), states_view(states), tag),
    ensures
        all_act(programs, bumps, actions(programs_view(programs), states_view(states), tag)),
{
    let ps = programs_view(programs);
    let view = states_view(states);
    let acts = actions(ps, view, tag);
    assert(states_view(bumps).len() == states.len());
    assert forall|k: int|
        #![trigger acts[k]]
        0 <= k < bumps.len() implies acts_on(programs[bumps[k].id as int], bumps[k], acts[k]) by {
        let s = states[k];
        assert(view[k] == s@);
        assert(states_view(bumps)[k] == bumps[k]@);
        assert(ps[s.id as int] == programs[s.id as int]@);
        lemma_steps_view(programs[s.id as int].steps@);
    }
}

/// Handles an element for all programs; its start tag has just been read.
fn process_many_start(
    scanner: &mut Scanner,
    tag: &Tag,
    pos_before: usize,
    programs: &[&Program],
    states: &mut Vec<ProgState>,
    borrowable: bool,
    known: &Readings,
    outs: &mut Vec<Sink>,
) -> (r: Result<(), Stop>)
    requires
        old(scanner).wf(),
        old(scanner).index() > 0,
        pos_before == pos_at(old(scanner).events(), old(scanner).index() - 1),
        states_ok(programs@, old(states)@, old(scanner).index() - 1),
        old(outs)@.len() == programs@.len(),
        outs_unknown(outs_view(old(outs)@), known@),
    ensures
        moved(*old(scanner), *final(scanner)),
        states_ok(programs@, final(states)@, final(scanner).index()),
        final(outs)@.len() == programs@.len(),
        outs_unknown(outs_view(final(outs)@), known@),
        ({
            let many = many_start(
                old(scanner).doc(),
                old(scanner).index() - 1,
                tag@,
                programs_view(programs@),
                states_view(old(states)@),
                borrowable,
                known@,
                outs_view(old(outs)@),
            );
            &&& is_many(r, final(states)@, final(outs)@, many)
            &&& r is Ok ==> final(scanner).index() == many.next
        }),
    decreases old(scanner).left(), 7int, 0int,
{
    let ghost d = scanner.doc();
    let ghost i = scanner.index() - 1;
    let ghost ps = programs_view(programs@);
    let ghost before = states@;
    let ghost view = states_view(before);
    proof {
        scanner.lemma_wf();
    }
    let acts = match choose_actions(tag, programs, states, Ghost(i)) {
        Ok(acts) => acts,
        Err(name) => {
            return Err(Stop::Ambiguous(name));
        },
    };
    let ghost all = actions_of(acts);
    proof {
        assert(states_view(states@).len() == states@.len());
        lemma_actions(programs@, before, states@, tag@, i);
    }
    let opened = scanner.fork();
    let ghost read = many_read(d, i, tag@, ps, view, borrowable, known@, outs_view(outs@));
    if needs_descent(&acts, states.len()) {
        let children = states_inside(programs, states, &acts);
        let place = scanner.base() + pos_before;
        let mut kept = open_scope(&opened, tag, place, programs, children, outs);
        match scan_many_children(scanner, true, programs, &mut kept, borrowable, known, outs) {
            Ok(()) => {},
            Err(stop) => {
                return Err(stop);
            },
        }
    } else {
        scanner.skip_element(tag.name());
    }
    match complete_all(
        scanner,
        &opened,
        tag,
        pos_before,
        programs,
        states,
        &acts,
        borrowable,
        known,
        outs,
        Ghost(i),
        Ghost(i + 1),
    ) {
        Ok(()) => {},
        Err(stop) => {
            return Err(stop);
        },
    }
    explore_all(
        scanner,
        &opened,
        tag,
        pos_before,
        programs,
        states,
        &acts,
        borrowable,
        known,
        outs,
        Ghost(i),
        Ghost(i + 1),
    )
}

/// How a part of a pass ended, as far as what the programs have collected.
closed spec fn is_pass(r: Result<(), Stop>, outs: Seq<Sink>, many: ManyV) -> bool {
    match r {
        Ok(()) => many.flow is Go && outs_view(outs) == many.outs,
        Err(stop) => many.flow == flow_of(Err(stop)) && many.flow is Ambiguous && asks_of(outs_view(outs))
            == asks_of(many.outs),
    }
}

/// Selects for one program in an element whose start tag has just been read,
/// from one of its steps on.
fn explore_from(
    opened: &Scanner,
    tag: &Tag,
    pos_before: usize,
    programs: &[&Program],
    id: usize,
    cursor: usize,
    borrowable: bool,
    known: &Readings,
    outs: &mut Vec<Sink>,
) -> (r: Result<(), Stop>)
    requires
        opened.wf(),
        opened.index() > 0,
        pos_before == pos_at(opened.events(), opened.index() - 1),
        id < programs@.len(),
        cursor <= programs@[id as int].steps@.len(),
        old(outs)@.len() == programs@.len(),
        outs_unknown(outs_view(old(outs)@), known@),
    ensures
        final(outs)@.len() == programs@.len(),
        outs_unknown(outs_view(final(outs)@), known@),
        is_pass(
            r,
            final(outs)@,
            explored_from(
                opened.doc(),
                opened.index() - 1,
                tag@,
                programs_view(programs@),
                id as nat,
                cursor as nat,
                borrowable,
                known@,
                outs_view(old(outs)@),
            ),
        ),
    decreases opened.left(), 3int, 0int,
{
    proof {
        opened.lemma_wf();
    }
    let mut inner = opened.fork();
    let mut alone: Vec<ProgState> = Vec::new();
    alone.push(ProgState::for_cursor(id, cursor));
    assert(states_view(alone@) =~= seq![fresh(id as nat, cursor as nat)]);
    let place = opened.base() + pos_before;
    let mut kept = open_scope(&inner, tag, place, programs, alone, outs);
    scan_many_children(&mut inner, true, programs, &mut kept, borrowable, known, outs)
}

/// Selects for a program whose step looks at any depth in a matching element
/// that has been read through: the element itself, or what its next step finds.
fn explore_first(
    scanner: &Scanner,
    opened: &Scanner,
    tag: &Tag,
    pos_before: usize,
    programs: &[&Program],
    s: ProgState,
    borrowable: bool,
    known: &Readings,
    outs: &mut Vec<Sink>,
    Ghost(i): Ghost<int>,
) -> (r: Result<(), Stop>)
    requires
        scanner.wf(),
        opened.wf(),
        opened.doc() == scanner.doc(),
        opened.index() == i + 1,
        0 <= i < scanner.index(),
        pos_before == pos_at(scanner.events(), i),
        s.id < programs@.len(),
        s.cursor < programs@[s.id as int].steps@.len(),
        old(outs)@.len() == programs@.len(),
        outs_unknown(outs_view(old(outs)@), known@),
    ensures
        final(outs)@.len() == programs@.len(),
        outs_unknown(outs_view(final(outs)@), known@),
        is_pass(
            r,
            final(outs)@,
            explored_first(
                scanner.doc(),
                i,
                scanner.index(),
                tag@,
                programs_view(programs@),
                s@,
                borrowable,
                known@,
                outs_view(old(outs)@),
            ),
        ),
    decreases opened.left(), 4int, 0int,
{
    let ghost ps = programs_view(programs@);
    let rest = rest_of(programs, s);
    proof {
        lemma_steps_view(rest@);
        assert(ps[s.id as int] == programs@[s.id as int]@);
    }
    let ghost outs0 = outs_view(outs@);
    let ghost d = scanner.doc();
    let ghost j = scanner.index();
    let ghost m = explored_first(d, i, j, tag@, ps, s@, borrowable, known@, outs0);
    if rest.len() == 0 {
        select_element(scanner, pos_before, programs, s.id, borrowable, outs, Ghost(i));
        Ok(())
    } else {
        let ghost next = (s.cursor + 1) as nat;
        assert(programs@[s.id as int].steps.len() == programs@[s.id as int].steps@.len());
        assert(m == explored_from(d, i, tag@, ps, s@.id, next, borrowable, known@, outs0));
        let cursor = s.cursor + 1;
        explore_from(opened, tag, pos_before, programs, s.id, cursor, borrowable, known, outs)
    }
}

/// Selects for a program whose step looks at any depth in a matching element
/// that has been read through, and in the elements inside.
fn explore_one(
    scanner: &Scanner,
    opened: &Scanner,
    tag: &Tag,
    pos_before: usize,
    programs: &[&Program],
    s: ProgState,
    borrowable: bool,
    known: &Readings,
    outs: &mut Vec<Sink>,
    Ghost(i): Ghost<int>,
) -> (r: Result<(), Stop>)
    requires
        scanner.wf(),
        opened.wf(),
        opened.doc() == scanner.doc(),
        opened.index() == i + 1,
        0 <= i < scanner.index(),
        pos_before == pos_at(scanner.events(), i),
        s.id < programs@.len(),
        s.cursor < programs@[s.id as int].steps@.len(),
        old(outs)@.len() == programs@.len(),
        outs_unknown(outs_view(old(outs)@), known@),
    ensures
        final(outs)@.len() == programs@.len(),
        outs_unknown(outs_view(final(outs)@), known@),
        is_pass(
            r,
            final(outs)@,
            explored(
                scanner.doc(),
                i,
                scanner.index(),
                tag@,
                programs_view(programs@),
                s@,
                borrowable,
                known@,
                outs_view(old(outs)@),
            ),
        ),
    decreases opened.left(), 5int, 0int,
{
    assert(programs_view(programs@)[s.id as int] == programs@[s.id as int]@);
    match explore_first(
        scanner,
        opened,
        tag,
        pos_before,
        programs,
        s,
        borrowable,
        known,
        outs,
        Ghost(i),
    ) {
        Ok(()) => {},
        Err(stop) => {
            return Err(stop);
        },
    }
    explore_from(opened, tag, pos_before, programs, s.id, s.cursor, borrowable, known, outs)
}

/// Selects for all programs whose steps look at any depth.
fn explore_all(
    scanner: &Scanner,
    opened: &Scanner,
    tag: &Tag,
    pos_before: usize,
    programs: &[&Program],
    states: &Vec<ProgState>,
    acts: &ActionList,
    borrowable: bool,
    known: &Readings,
    outs: &mut Vec<Sink>,
    Ghost(i): Ghost<int>,
    Ghost(bound): Ghost<int>,
) -> (r: Result<(), Stop>)
    requires
        scanner.wf(),
        opened.wf(),
        opened.doc() == scanner.doc(),
        opened.index() == i + 1,
        0 <= i < scanner.index(),
        pos_before == pos_at(scanner.events(), i),
        states_ok(programs@, states@, bound),
        states@.len() == actions_of(*acts).len(),
        all_act(programs@, states@, actions_of(*acts)),
        old(outs)@.len() == programs@.len(),
        outs_unknown(outs_view(old(outs)@), known@),
    ensures
        final(outs)@.len() == programs@.len(),
        outs_unknown(outs_view(final(outs)@), known@),
        is_pass(
            r,
            final(outs)@,
            all_explored(
                scanner.doc(),
                i,
                scanner.index(),
                tag@,
                programs_view(programs@),
                states_view(states@),
                actions_of(*acts),
                borrowable,
                known@,
                outs_view(old(outs)@),
                states@.len(),
            ),
        ),
    decreases opened.left(), 6int, 0int,
{
    let ghost d = scanner.doc();
    let ghost ps = programs_view(programs@);
    let ghost view = states_view(states@);
    let ghost all = actions_of(*acts);
    let ghost outs0 = outs_view(outs@);
    let mut k: usize = 0;
    while k < states.len()
        invariant
            scanner.wf(),
            scanner.doc() == d,
            opened.wf(),
            opened.doc() == scanner.doc(),
            opened.index() == i + 1,
            0 <= i < scanner.index(),
            pos_before == pos_at(scanner.events(), i),
            ps == programs_view(programs@),
            view == states_view(states@),
            all == actions_of(*acts),
            states@.len() == all.len(),
            k <= states@.len(),
            states_ok(programs@, states@, bound),
            all_act(programs@, states@, all),
            outs@.len() == programs@.len(),
            outs_unknown(outs_view(outs@), known@),
            outs0 == outs_view(old(outs)@),
            ({
                let m = all_explored(
                    d,
                    i,
                    scanner.index(),
                    tag@,
                    ps,
                    view,
                    all,
                    borrowable,
                    known@,
                    outs0,
                    k as nat,
                );
                m.flow is Go && m.outs == outs_view(outs@)
            }),
        decreases states@.len() - k,
    {
        let s = states[k];
        assert(view[k as int] == s@);
        if action_at(acts, k) == Action::Explore {
            assert(all[k as int] == Action::Explore);
            match explore_one(
                scanner,
                opened,
                tag,
                pos_before,
                programs,
                s,
                borrowable,
                known,
                outs,
                Ghost(i),
            ) {
                Ok(()) => {},
                Err(stop) => {
                    proof {
                        lemma_explored_stops(
                            d,
                            i,
                            scanner.index(),
                            tag@,
                            ps,
                            view,
                            all,
                            borrowable,
                            known@,
                            outs0,
                            (k + 1) as nat,
                            view.len(),
                        );
                    }
                    return Err(stop);
                },
            }
        }
        k = k + 1;
    }
    Ok(())
}

/// Once a program stops the pass, the programs behind it do nothing.
proof fn lemma_explored_stops(
    d: DocV,
    i: int,
    j: int,
    tag: TagV,
    programs: Seq<ProgramV>,
    states: Seq<StateV>,
    acts: Seq<Action>,
    borrowable: bool,
    known: ReadingsV,
    outs: Seq<SinkV>,
    n: nat,
    m: nat,
)
    requires
        n <= m,
        all_explored(d, i, j, tag, programs, states, acts, borrowable, known, outs, n).flow !is Go,
    ensures
        all_explored(d, i, j, tag, programs, states, acts, borrowable, known, outs, m)
            == all_explored(d, i, j, tag, programs, states, acts, borrowable, known, outs, n),
    decreases m,
{
    if n < m {
        lemma_explored_stops(
            d,
            i,
            j,
            tag,
            programs,
            states,
            acts,
            borrowable,
            known,
            outs,
            n,
            (m - 1) as nat,
        );
    }
}

/// Handles an empty element at a place for one program.
fn process_one_empty(
    tag: &Tag,
    place: usize,
    programs: &[&Program],
    s: ProgState,
    known: &Readings,
    sink: &mut Sink,
) -> (r: Result<ProgState, Stop>)
    requires
        s.id < programs@.len(),
        s.cursor <= programs@[s.id as int].steps@.len(),
        s.count < usize::MAX,
    ensures
        still_unknown(old(sink)@, final(sink)@, known@),
        is_one(
            r,
            final(sink)@,
            one_empty(programs@[s.id as int]@, s@, tag@, place as nat, known@, old(sink)@),
        ),
        r matches Ok(t) ==> t.id == s.id && t.cursor == s.cursor && t.count <= s.count + 1,
{
    if s.done_in_scope {
        return Ok(s);
    }
    match step_of(programs, s) {
        Some(Step::Child { name, .. }) => {
            if !matches_tag(name, tag) {
                return Ok(s);
            }
        },
        _ => {
            return Ok(s);
        },
    }
    let now = ProgState { count: s.count + 1, ..s };
    let ended = handle_match_empty(tag, place, steps_from(programs, s), now.count, known, sink);
    handle(now, ended)
}

/// Once a program stops the pass, the programs behind it do nothing.
proof fn lemma_empty_stops(
    tag: TagV,
    place: nat,
    programs: Seq<ProgramV>,
    states: Seq<StateV>,
    known: ReadingsV,
    outs: Seq<SinkV>,
    n: nat,
    m: nat,
)
    requires
        n <= m,
        many_empty(tag, place, programs, states, known, outs, n).flow !is Go,
    ensures
        many_empty(tag, place, programs, states, known, outs, m) == many_empty(
            tag,
            place,
            programs,
            states,
            known,
            outs,
            n,
        ),
    decreases m,
{
    if n < m {
        lemma_empty_stops(tag, place, programs, states, known, outs, n, (m - 1) as nat);
    }
}

/// Handles an empty element at a place for all programs.
fn process_many_empty(
    tag: &Tag,
    place: usize,
    programs: &[&Program],
    states: &mut Vec<ProgState>,
    known: &Readings,
    outs: &mut Vec<Sink>,
    Ghost(bound): Ghost<int>,
) -> (r: Result<(), Stop>)
    requires
        states_ok(programs@, old(states)@, bound),
        bound < usize::MAX,
        old(outs)@.len() == programs@.len(),
        outs_unknown(outs_view(old(outs)@), known@),
    ensures
        states_ok(programs@, final(states)@, bound + 1),
        final(outs)@.len() == programs@.len(),
        outs_unknown(outs_view(final(outs)@), known@),
        is_many(
            r,
            final(states)@,
            final(outs)@,
            many_empty(
                tag@,
                place as nat,
                programs_view(programs@),
                states_view(old(states)@),
                known@,
                outs_view(old(outs)@),
                old(states)@.len(),
            ),
        ),
{
    let ghost ps = programs_view(programs@);
    let ghost before = states@;
    let ghost view = states_view(before);
    let ghost outs0 = outs_view(outs@);
    let mut k: usize = 0;
    while k < states.len()
        invariant
            ps == programs_view(programs@),
            before == old(states)@,
            view == states_view(before),
            outs0 == outs_view(old(outs)@),
            states@.len() == before.len(),
            k <= states@.len(),
            bound < usize::MAX,
            states_ok(programs@, states@, bound + 1),
            states_ok(programs@, before, bound),
            outs@.len() == programs@.len(),
            outs_unknown(outs_view(outs@), known@),
            forall|j: int| k <= j < states@.len() ==> states@[j] == before[j],
            ({
                let m = many_empty(tag@, place as nat, ps, view, known@, outs0, k as nat);
                &&& m.flow is Go
                &&& m.states == states_view(states@)
                &&& m.outs == outs_view(outs@)
            }),
        decreases states@.len() - k,
    {
        let s = states[k];
        let id = s.id;
        let ghost mid = outs_view(outs@);
        let ghost mid_states = states_view(states@);
        assert(s == before[k as int]);
        assert(view[k as int] == s@);
        assert(ps[id as int] == programs@[id as int]@);
        assert(mid[id as int] == outs@[id as int]@);
        let one = process_one_empty(tag, place, programs, s, known, &mut outs[id]);
        proof {
            let sink = outs_view(outs@)[id as int];
            assert(outs_view(outs@) =~= mid.update(id as int, sink));
            assert forall|j: int| 0 <= j < outs_view(outs@).len() implies all_unknown(
                (#[trigger] outs_view(outs@)[j]).asked,
                known@,
            ) by {
                if j != id {
                    assert(outs_view(outs@)[j] == mid[j]);
                } else {
                    assert(all_unknown(mid[j].asked, known@));
                }
            }
            reveal_with_fuel(many_empty, 2);
        }
        match one {
            Ok(next) => {
                states[k] = next;
                assert(states_view(states@) =~= mid_states.update(k as int, next@));
            },
            Err(stop) => {
                proof {
                    let m = many_empty(tag@, place as nat, ps, view, known@, outs0, (k + 1) as nat);
                    lemma_empty_stops(
                        tag@,
                        place as nat,
                        ps,
                        view,
                        known@,
                        outs0,
                        (k + 1) as nat,
                        view.len(),
                    );
                    assert(m.outs == outs_view(outs@));
                }
                return Err(stop);
            },
        }
        k = k + 1;
    }
    Ok(())
}

/// Whether some program looks for a child element.
fn wants_some_child(programs: &[&Program], states: &Vec<ProgState>, Ghost(bound): Ghost<int>) -> (r:
    bool)
    requires
        states_ok(programs@, states@, bound),
    ensures
        r == any_child(programs_view(programs@), states_view(states@)),
{
    let ghost ps = programs_view(programs@);
    let ghost view = states_view(states@);
    for k in 0..states.len()
        invariant
            ps == programs_view(programs@),
            view == states_view(states@),
            states_ok(programs@, states@, bound),
            forall|j: int|
                0 <= j < k ==> !wants_child(ps[(#[trigger] view[j]).id as int], view[j]),
    {
        let s = states[k];
        assert(view[k as int] == s@);
        assert(ps[s.id as int] == programs@[s.id as int]@);
        if let Some(Step::Child { .. }) = step_of(programs, s) {
            assert(wants_child(ps[view[k as int].id as int], view[k as int]));
            return true;
        }
    }
    false
}

/// Evaluates all programs over the elements of the current scope, or of the
/// document.
fn scan_many_children(
    scanner: &mut Scanner,
    scoped: bool,
    programs: &[&Program],
    states: &mut Vec<ProgState>,
    borrowable: bool,
    known: &Readings,
    outs: &mut Vec<Sink>,
) -> (r: Result<(), Stop>)
    requires
        old(scanner).wf(),
        scoped ==> old(scanner).index() > 0,
        states_ok(programs@, old(states)@, old(scanner).index()),
        old(outs)@.len() == programs@.len(),
        outs_unknown(outs_view(old(outs)@), known@),
    ensures
        moved(*old(scanner), *final(scanner)),
        final(outs)@.len() == programs@.len(),
        outs_unknown(outs_view(final(outs)@), known@),
        ({
            let many = many_scope(
                old(scanner).doc(),
                old(scanner).index(),
                scoped,
                programs_view(programs@),
                states_view(old(states)@),
                borrowable,
                known@,
                outs_view(old(outs)@),
            );
            &&& is_many(r, final(states)@, final(outs)@, many)
            &&& r is Ok ==> final(scanner).index() == many.next
        }),
    decreases old(scanner).left(), 2int, 0int,
{
    let ghost d = scanner.doc();
    let ghost start = scanner.index();
    let ghost ps = programs_view(programs@);
    proof {
        scanner.lemma_wf();
    }
    if !wants_some_child(programs, states, Ghost(start)) {
        consume_to_end(scanner, scoped);
        return Ok(());
    }
    let ghost whole = many_scan(
        d,
        start,
        ps,
        states_view(states@),
        borrowable,
        known@,
        outs_view(outs@),
    );
    loop
        invariant
            scanner.wf(),
            scanner.doc() == d,
            d == old(scanner).doc(),
            start == old(scanner).index(),
            start <= scanner.index() <= d.events.len() <= usize::MAX,
            ps == programs_view(programs@),
            states_ok(programs@, states@, scanner.index()),
            outs@.len() == programs@.len(),
            outs_unknown(outs_view(outs@), known@),
            whole == many_scan(
                d,
                start,
                ps,
                states_view(old(states)@),
                borrowable,
                known@,
                outs_view(old(outs)@),
            ),
            whole == many_scan(
                d,
                scanner.index(),
                ps,
                states_view(states@),
                borrowable,
                known@,
                outs_view(outs@),
            ),
            any_child(ps, states_view(old(states)@)),
        decreases d.events.len() - scanner.index(),
    {
        let ghost i = scanner.index();
        let pos_before = scanner.position();
        proof {
            scanner.lemma_wf();
        }
        let here = scanner.base() + pos_before;
        match scanner.next() {
            XmlEvent::Start(tag) => {
                match process_many_start(
                    scanner,
                    &tag,
                    pos_before,
                    programs,
                    states,
                    borrowable,
                    known,
                    outs,
                ) {
                    Ok(()) => {},
                    Err(stop) => {
                        return Err(stop);
                    },
                }
            },
            XmlEvent::Empty(tag) => {
                match process_many_empty(&tag, here, programs, states, known, outs, Ghost(i)) {
                    Ok(()) => {},
                    Err(stop) => {
                        return Err(stop);
                    },
                }
            },
            XmlEvent::End(_) => {
                collect_counts(programs, states, here, outs, Ghost(i));
                return Ok(());
            },
            XmlEvent::Eof => {
                collect_counts(programs, states, here, outs, Ghost(i));
                return Ok(());
            },
            XmlEvent::Error => {
                return Ok(());
            },
            _ => {},
        }
    }
}

/// What the modifiers of the first `n` programs make of what these have
/// collected; what one of them has collected at one place counts once.
pub open spec fn each_modified(
    programs: Seq<ProgramV>,
    outs: Seq<SinkV>,
    known: ReadingsV,
    n: nat,
) -> Result<Seq<Seq<ItemV>>, ErrorV>
    decreases n,
{
    if n == 0 {
        Ok(Seq::empty())
    } else {
        match each_modified(programs, outs, known, (n - 1) as nat) {
            Ok(lists) => match all_modified(
                programs[n - 1].modifiers,
                once(outs[n - 1].items),
                known,
            ) {
                Ok(items) => Ok(lists.push(items)),
                Err(error) => Err(error),
            },
            Err(error) => Err(error),
        }
    }
}

/// The outcome of several queries, from what their pass has collected and how
/// it ended.
pub open spec fn many_outcome(
    programs: Seq<ProgramV>,
    outs: Seq<SinkV>,
    flow: FlowV,
    known: ReadingsV,
) -> Result<Seq<Seq<ItemV>>, ErrorV> {
    if asks_of(outs).len() > 0 {
        Err(ErrorV::NumbersNeeded(asks_of(outs)))
    } else {
        match flow {
            FlowV::Ambiguous(name) => Err(ErrorV::Ambiguous(name)),
            _ => each_modified(programs, outs, known, programs.len()),
        }
    }
}

/// What several programs select in a document.
pub open spec fn many_selected(
    programs: Seq<ProgramV>,
    xml: Seq<u8>,
    borrowable: bool,
    known: ReadingsV,
) -> Result<Seq<Seq<ItemV>>, ErrorV> {
    let states = starting(programs, programs.len());
    let r = many_scope(
        doc_of(xml),
        0,
        false,
        programs,
        not_terminal(programs, states),
        borrowable,
        known,
        values_selected(None, 0, Seq::empty(), programs, states, nothing_each(programs.len())),
    );
    many_outcome(programs, r.outs, r.flow, known)
}

/// The first tag from the event `i` on, unless an error comes before it.
pub open spec fn entry_tag(events: Seq<EventAt>, i: int) -> Option<int>
    decreases events.len() - i,
{
    if i < 0 || i >= events.len() {
        None
    } else {
        match events[i].event {
            EventV::Start(_) => Some(i),
            EventV::Empty(_) => Some(i),
            EventV::Error => None,
            _ => entry_tag(events, i + 1),
        }
    }
}

/// What several programs select inside the first element of a fragment.
pub open spec fn many_selected_within(
    programs: Seq<ProgramV>,
    bytes: Seq<u8>,
    known: ReadingsV,
) -> Result<Seq<Seq<ItemV>>, ErrorV> {
    let d = doc_of(bytes);
    let none = nothing_each(programs.len());
    let states = starting(programs, programs.len());
    match entry_tag(d.events, 0) {
        Some(k) => match d.events[k].event {
            EventV::Start(tag) => {
                let r = many_scope(
                    d,
                    k + 1,
                    true,
                    programs,
                    not_terminal(programs, states),
                    false,
                    known,
                    values_selected(
                        Some(tag),
                        place_at(d, k),
                        scope_text(d.events, k + 1, 1),
                        programs,
                        states,
                        none,
                    ),
                );
                many_outcome(programs, r.outs, r.flow, known)
            },
            EventV::Empty(tag) => many_outcome(
                programs,
                values_selected(Some(tag), place_at(d, k), Seq::empty(), programs, states, none),
                FlowV::Go,
                known,
            ),
            _ => many_outcome(programs, none, FlowV::Go, known),
        },
        None => many_outcome(programs, none, FlowV::Go, known),
    }
}

/// The contents of lists of result entries.
pub open spec fn lists_view(lists: Seq<Vec<Item>>) -> Seq<Seq<ItemV>> {
    Seq::new(lists.len(), |k: int| items_view(lists[k]@))
}

/// Whether the result of several queries is what is meant.
pub open spec fn is_many_outcome(
    r: Result<Vec<Vec<Item>>, EngineError>,
    meant: Result<Seq<Seq<ItemV>>, ErrorV>,
) -> bool {
    match r {
        Ok(lists) => meant == Ok::<Seq<Seq<ItemV>>, ErrorV>(lists_view(lists@)),
        Err(error) => meant == Err::<Seq<Seq<ItemV>>, ErrorV>(error@),
    }
}

/// The programs that have steps, before their first one.
fn start_states(programs: &[&Program]) -> (r: Vec<ProgState>)
    ensures
        states_view(r@) == starting(programs_view(programs@), programs@.len()),
        states_ok(programs@, r@, 0),
{
    let ghost ps = programs_view(programs@);
    let mut r: Vec<ProgState> = Vec::new();
    assert(states_view(r@) =~= starting(ps, 0));
    for k in 0..programs.len()
        invariant
            ps == programs_view(programs@),
            states_view(r@) == starting(ps, k as nat),
            states_ok(programs@, r@, 0),
    {
        let ghost before = r@;
        let program: &Program = programs[k];
        proof {
            assert(ps[k as int] == programs@[k as int]@);
            lemma_steps_view(program.steps@);
        }
        if program.steps.len() > 0 {
            r.push(ProgState::for_cursor(k, 0));
            assert(states_view(r@) =~= states_view(before).push(r@.last()@));
        }
    }
    r
}

/// Collections of nothing, one for each program.
fn empty_outs(n: usize) -> (r: Vec<Sink>)
    ensures
        r@.len() == n,
        outs_view(r@) == nothing_each(n as nat),
        forall|known: ReadingsV| #[trigger] outs_unknown(outs_view(r@), known),
{
    let mut r: Vec<Sink> = Vec::new();
    for k in 0..n
        invariant
            r@.len() == k,
            forall|j: int| 0 <= j < k ==> (#[trigger] r@[j])@ == nothing(),
    {
        r.push(Sink::new());
    }
    assert(outs_view(r@) =~= nothing_each(n as nat));
    r
}

proof fn lemma_asks(outs: Seq<SinkV>, known: ReadingsV)
    requires
        outs_unknown(outs, known),
    ensures
        all_unknown(asks_of(outs), known),
    decreases outs.len(),
{
    if outs.len() > 0 {
        let head = outs.drop_last();
        assert forall|k: int| 0 <= k < head.len() implies all_unknown(
            (#[trigger] head[k]).asked,
            known,
        ) by {
            assert(head[k] == outs[k]);
        }
        lemma_asks(head, known);
        assert(all_unknown(outs[outs.len() - 1].asked, known));
        let all = asks_of(outs);
        let cut = asks_of(head).len();
        assert forall|i: int| 0 <= i < all.len() implies crate::number::is_numeral(
            #[trigger] all[i],
        ) && !known.numbers.contains_key(all[i]) by {
            if i < cut {
                assert(all[i] == asks_of(head)[i]);
            } else {
                assert(all[i] == outs.last().asked[i - cut]);
            }
        }
    }
}

/// The numerals that the programs ask for.
fn all_asks(outs: &mut Vec<Sink>) -> (r: Vec<String>)
    ensures
        texts_view(r@) == asks_of(outs_view(old(outs)@)),
        final(outs)@.len() == old(outs)@.len(),
        forall|k: int|
            0 <= k < old(outs)@.len() ==> (#[trigger] final(outs)@[k]).items == old(outs)@[k].items,
{
    let ghost view = outs_view(outs@);
    let mut r: Vec<String> = Vec::new();
    let mut k: usize = 0;
    assert(texts_view(r@) =~= asks_of(view.take(0)));
    while k < outs.len()
        invariant
            view == outs_view(old(outs)@),
            outs@.len() == old(outs)@.len(),
            k <= outs@.len(),
            forall|j: int|
                0 <= j < outs@.len() ==> (#[trigger] outs@[j]).items == old(outs)@[j].items,
            forall|j: int| k <= j < outs@.len() ==> (#[trigger] outs@[j]) == old(outs)@[j],
            texts_view(r@) == asks_of(view.take(k as int)),
        decreases outs@.len() - k,
    {
        let ghost before = r@;
        let ghost asked = outs@[k as int].asked@;
        assert(view.take(k + 1).drop_last() =~= view.take(k as int));
        assert(view.take(k + 1).last() == old(outs)@[k as int]@);
        let mut texts: Vec<String> = Vec::new();
        std::mem::swap(&mut texts, &mut outs[k].asked);
        assert(texts@ == asked);
        r.append(&mut texts);
        assert(r@ == before + asked);
        assert(texts_view(r@) =~= texts_view(before) + texts_view(asked));
        k = k + 1;
    }
    assert(view.take(k as int) =~= view);
    r
}

/// Ends several queries.
fn conclude_many(
    programs: &[&Program],
    outs: Vec<Sink>,
    ended: Result<(), Stop>,
    known: &Readings,
    Ghost(meant): Ghost<ManyV>,
) -> (r: Result<Vec<Vec<Item>>, EngineError>)
    requires
        outs@.len() == programs@.len(),
        outs_unknown(outs_view(outs@), known@),
        match ended {
            Ok(()) => meant.flow is Go && meant.outs == outs_view(outs@),
            Err(stop) => meant.flow is Ambiguous && meant.flow == flow_of(
                Err(stop),
            ) && asks_of(outs_view(outs@)) == asks_of(meant.outs),
        },
    ensures
        is_many_outcome(
            r,
            many_outcome(programs_view(programs@), meant.outs, meant.flow, known@),
        ),
        r matches Err(error) ==> asks_unknown(error@, known@),
{
    let ghost ps = programs_view(programs@);
    let ghost view = outs_view(outs@);
    proof {
        lemma_asks(view, known@);
    }
    let mut outs = outs;
    let ghost outs0 = outs@;
    let texts = all_asks(&mut outs);
    assert(texts_view(texts@).len() == texts@.len());
    if texts.len() > 0 {
        return Err(EngineError::NumbersNeeded { texts });
    }
    if let Err(Stop::Ambiguous(name)) = ended {
        return Err(EngineError::AmbiguousMatch { name });
    }
    let mut lists: Vec<Vec<Item>> = Vec::new();
    let mut k: usize = 0;
    assert(lists_view(lists@) =~= Seq::empty());
    while k < outs.len()
        invariant
            ps == programs_view(programs@),
            outs@.len() == programs@.len(),
            outs0.len() == outs@.len(),
            view == outs_view(outs0),
            k <= outs@.len(),
            forall|j: int|
                k <= j < outs@.len() ==> (#[trigger] outs@[j]).items == outs0[j].items,
            each_modified(ps, view, known@, k as nat) == Ok::<Seq<Seq<ItemV>>, ErrorV>(
                lists_view(lists@),
            ),
            meant.flow is Go,
            meant.outs == view,
            asks_of(view).len() == 0,
        decreases outs@.len() - k,
    {
        let ghost before = lists@;
        let mut found: Vec<Found> = Vec::new();
        std::mem::swap(&mut found, &mut outs[k].items);
        assert(found_view(found@) == view[k as int].items);
        let mut items = collected(found);
        assert(ps[k as int] == programs@[k as int]@);
        match apply_modifiers(programs[k].modifiers.as_slice(), &mut items, known) {
            Ok(()) => {
                lists.push(items);
                assert(lists_view(lists@) =~= lists_view(before).push(items_view(items@)));
            },
            Err(error) => {
                proof {
                    crate::modifiers::law_modifiers_ask_unknown(
                        ps[k as int].modifiers,
                        once(view[k as int].items),
                        known@,
                    );
                    lemma_modified_stops(ps, view, known@, (k + 1) as nat, ps.len());
                }
                return Err(error);
            },
        }
        k = k + 1;
    }
    Ok(lists)
}

/// Once the modifiers of a program fail, so do all queries.
proof fn lemma_modified_stops(
    programs: Seq<ProgramV>,
    outs: Seq<SinkV>,
    known: ReadingsV,
    n: nat,
    m: nat,
)
    requires
        n <= m,
        each_modified(programs, outs, known, n) is Err,
    ensures
        each_modified(programs, outs, known, m) == each_modified(programs, outs, known, n),
    decreases m,
{
    if n < m {
        lemma_modified_stops(programs, outs, known, n, (m - 1) as nat);
    }
}

/// Evaluates several programs in one pass over a document. With `borrowable`,
/// elements are given by their place in the document. Where the programs have
/// to know the numbers that numerals stand for, they say so: see
/// [`run_many_with_readings`].
pub fn run_many(programs: &[&Program], xml: &[u8], borrowable: bool) -> (r: Result<
    Vec<Vec<Item>>,
    EngineError,
>)
    ensures
        is_many_outcome(
            r,
            many_selected(programs_view(programs@), xml@, borrowable, no_readings()),
        ),
        xml@.len() <= u32::MAX ==> addressable(doc_of(xml@)),
{
    run_many_with_readings(programs, xml, borrowable, &Readings::new())
}

/// Evaluates several programs in one pass over a document, with what is known
/// of its numerals.
pub fn run_many_with_readings(
    programs: &[&Program],
    xml: &[u8],
    borrowable: bool,
    known: &Readings,
) -> (r: Result<Vec<Vec<Item>>, EngineError>)
    ensures
        is_many_outcome(r, many_selected(programs_view(programs@), xml@, borrowable, known@)),
        xml@.len() <= u32::MAX ==> addressable(doc_of(xml@)),
        r matches Err(error) ==> asks_unknown(error@, known@),
{
    let mut outs = empty_outs(programs.len());
    let empty: Vec<u8> = Vec::new();
    assert(empty@ =~= Seq::<u8>::empty());
    let starts = start_states(programs);
    let mut states = collect_many_attr_text(None, 0, empty.as_slice(), programs, starts, &mut outs);
    let ghost ps = programs_view(programs@);
    let ghost meant = many_scope(
        doc_of(xml@),
        0,
        false,
        ps,
        states_view(states@),
        borrowable,
        known@,
        outs_view(outs@),
    );
    let mut ended = Ok(());
    let mut scanner = Scanner::new(xml, true);
    proof {
        scanner.lemma_wf();
        let events = doc_of(xml@).events;
        assert forall|i: int| 0 <= i < events.len() && xml@.len() <= u32::MAX implies (
        #[trigger] events[i]).end <= u32::MAX by {
            assert(pos_at(events, i + 1) <= xml@.len());
        }
    }
    if states.len() > 0 {
        ended =
        scan_many_children(
            &mut scanner,
            false,
            programs,
            &mut states,
            borrowable,
            known,
            &mut outs,
        );
    }
    conclude_many(programs, outs, ended, known, Ghost(meant))
}

/// Evaluates several programs inside the first element of a fragment.
pub fn run_many_within(programs: &[&Program], fragment: &[u8]) -> (r: Result<
    Vec<Vec<Item>>,
    EngineError,
>)
    ensures
        is_many_outcome(
            r,
            many_selected_within(programs_view(programs@), fragment@, no_readings()),
        ),
{
    run_many_within_with_readings(programs, fragment, &Readings::new())
}

/// Evaluates several programs inside the first element of a fragment, with
/// what is known of its numerals.
pub fn run_many_within_with_readings(programs: &[&Program], fragment: &[u8], known: &Readings) -> (r: Result<
    Vec<Vec<Item>>,
    EngineError,
>)
    ensures
        is_many_outcome(r, many_selected_within(programs_view(programs@), fragment@, known@)),
        r matches Err(error) ==> asks_unknown(error@, known@),
{
    let ghost ps = programs_view(programs@);
    let ghost d = doc_of(fragment@);
    let mut outs = empty_outs(programs.len());
    let states = start_states(programs);
    let ghost none = outs_view(outs@);
    let ghost still = ManyV { next: 0, states: Seq::empty(), outs: none, flow: FlowV::Go };
    let mut scanner = Scanner::new(fragment, true);
    proof {
        scanner.lemma_wf();
    }
    loop
        invariant
            scanner.wf(),
            scanner.doc() == d,
            d == doc_of(fragment@),
            ps == programs_view(programs@),
            0 <= scanner.index() <= d.events.len(),
            entry_tag(d.events, 0) == entry_tag(d.events, scanner.index()),
            outs@.len() == programs@.len(),
            outs_view(outs@) == none,
            none == nothing_each(programs@.len()),
            outs_unknown(outs_view(outs@), known@),
            still == (ManyV { next: 0, states: Seq::empty(), outs: none, flow: FlowV::Go }),
            states_view(states@) == starting(ps, ps.len()),
            states_ok(programs@, states@, 0),
        decreases d.events.len() - scanner.index(),
    {
        let pos_before = scanner.position();
        proof {
            scanner.lemma_wf();
        }
        let place = scanner.base() + pos_before;
        match scanner.next() {
            XmlEvent::Start(tag) => {
                let mut kept = open_scope(&scanner, &tag, place, programs, states, &mut outs);
                let ghost meant = many_scope(
                    d,
                    scanner.index(),
                    true,
                    ps,
                    states_view(kept@),
                    false,
                    known@,
                    outs_view(outs@),
                );
                let ended = scan_many_children(
                    &mut scanner,
                    true,
                    programs,
                    &mut kept,
                    false,
                    known,
                    &mut outs,
                );
                return conclude_many(programs, outs, ended, known, Ghost(meant));
            },
            XmlEvent::Empty(tag) => {
                let empty: Vec<u8> = Vec::new();
                assert(empty@ =~= Seq::<u8>::empty());
                let _ = collect_many_attr_text(
                    Some(&tag),
                    place,
                    empty.as_slice(),
                    programs,
                    states,
                    &mut outs,
                );
                let ghost meant = ManyV {
                    next: 0,
                    states: Seq::empty(),
                    outs: outs_view(outs@),
                    flow: FlowV::Go,
                };
                return conclude_many(programs, outs, Ok(()), known, Ghost(meant));
            },
            XmlEvent::Eof => {
                return conclude_many(programs, outs, Ok(()), known, Ghost(still));
            },
            XmlEvent::Error => {
                return conclude_many(programs, outs, Ok(()), known, Ghost(still));
            },
            _ => {},
        }
    }
}

} // verus!
