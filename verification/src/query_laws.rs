//! What holds of every query: where it looks, what it refuses, and how it ends.

use vstd::prelude::*;

use crate::engine::{error_message, outcome, selected, selected_within, ErrorV};
use crate::grammar::compiled;
use crate::modifiers::all_modified;
use crate::number::ReadingsV;
use crate::path::{Modifier, ParseErrorV, ProgramV};
use crate::query::{
    active, got, got_in, got_many, got_many_in, held_selected, kept_paths, spread, PATH_CACHE_CAP,
    QueryErrorV,
};
use crate::result::HeldV;
use crate::semantics::{enter, first_tag, nothing, once, FlowV, ItemV, SinkV};
use crate::xml::{doc_of, EventAt, EventV, TagV};

verus! {

/// The empty path selects nothing, in anything that can be looked into.
pub proof fn law_empty_path_selects_nothing(xml: Seq<u8>, items: Seq<HeldV>, known: ReadingsV)
    ensures
        got(xml, Seq::empty(), known) == Ok::<Seq<ItemV>, QueryErrorV>(Seq::empty()),
        items.len() <= 1 ==> got_in(items, Seq::empty(), known) == Ok::<Seq<ItemV>, QueryErrorV>(
            Seq::empty(),
        ),
{
}

/// A path that does not compile is refused with what is wrong with it and the path
/// itself, whatever it is asked of.
pub proof fn law_bad_paths_are_refused(
    xml: Seq<u8>,
    items: Seq<HeldV>,
    path: Seq<char>,
    kind: ParseErrorV,
    known: ReadingsV,
)
    requires
        path.len() > 0,
        compiled(path) == Err::<ProgramV, ParseErrorV>(kind),
    ensures
        got(xml, path, known) == Err::<Seq<ItemV>, QueryErrorV>(QueryErrorV::Path(kind, path)),
        items.len() <= 1 ==> got_in(items, path, known) == Err::<Seq<ItemV>, QueryErrorV>(
            QueryErrorV::Path(kind, path),
        ),
{
}

/// Several things cannot be looked into, by one path or by several programs.
pub proof fn law_lists_are_not_looked_into(
    items: Seq<HeldV>,
    path: Seq<char>,
    programs: Seq<Option<ProgramV>>,
    known: ReadingsV,
)
    requires
        items.len() > 1,
    ensures
        got_in(items, path, known) == Err::<Seq<ItemV>, QueryErrorV>(QueryErrorV::Several),
        got_many_in(items, programs, known) == Err::<Seq<Seq<ItemV>>, QueryErrorV>(
            QueryErrorV::Several,
        ),
{
}

/// To ask a document that is held is to ask the document.
pub proof fn law_documents_answer_alike(
    xml: Seq<u8>,
    path: Seq<char>,
    programs: Seq<Option<ProgramV>>,
    known: ReadingsV,
)
    ensures
        got_in(seq![HeldV::Document(xml)], path, known) == got(xml, path, known),
        got_many_in(seq![HeldV::Document(xml)], programs, known) == match got_many(
            xml,
            programs,
            false,
            known,
        ) {
            Ok(lists) => Ok(lists),
            Err(error) => Err(QueryErrorV::Engine(error)),
        },
{
}

/// In nothing, and in a scalar, every path that compiles selects nothing.
pub proof fn law_scalars_hold_no_elements(
    text: Seq<u8>,
    path: Seq<char>,
    programs: Seq<Option<ProgramV>>,
    known: ReadingsV,
)
    ensures
        compiled(path) is Ok ==> {
            &&& got_in(seq![HeldV::Scalar(text)], path, known) == Ok::<Seq<ItemV>, QueryErrorV>(
                Seq::empty(),
            )
            &&& got_in(Seq::empty(), path, known) == Ok::<Seq<ItemV>, QueryErrorV>(Seq::empty())
        },
        match got_many_in(seq![HeldV::Scalar(text)], programs, known) {
            Ok(lists) => lists.len() == programs.len() && forall|k: int|
                0 <= k < lists.len() ==> (#[trigger] lists[k]).len() == 0,
            Err(_) => false,
        },
        match got_many_in(Seq::empty(), programs, known) {
            Ok(lists) => lists.len() == programs.len() && forall|k: int|
                0 <= k < lists.len() ==> (#[trigger] lists[k]).len() == 0,
            Err(_) => false,
        },
{
}

/// A document is asked from its top. A captured element is asked from inside it:
/// its own name is no part of the path.
pub proof fn law_elements_are_asked_inside(
    program: ProgramV,
    bytes: Seq<u8>,
    k: int,
    tag: TagV,
    known: ReadingsV,
)
    requires
        program.steps.len() > 0,
    ensures
        first_tag_is(doc_of(bytes).events, k) && doc_of(bytes).events[k].event == EventV::Start(tag)
            ==> {
            let r = enter(doc_of(bytes), k + 1, Some(tag), program.steps, known, nothing());
            held_selected(HeldV::Fragment(bytes), program, known) == outcome(
                r.sink,
                r.flow,
                program.modifiers,
                known,
            )
        },
        ({
            let r = enter(doc_of(bytes), 0, None, program.steps, known, nothing());
            held_selected(HeldV::Document(bytes), program, known) == outcome(
                r.sink,
                r.flow,
                program.modifiers,
                known,
            )
        }),
{
    let events = doc_of(bytes).events;
    if first_tag_is(events, k) {
        lemma_first_tag(events, 0, k);
    }
}

/// Whether an event is the first tag of events.
pub open spec fn first_tag_is(events: Seq<EventAt>, k: int) -> bool {
    &&& 0 <= k < events.len()
    &&& events[k].event is Start || events[k].event is Empty
    &&& forall|j: int|
        0 <= j < k ==> !(#[trigger] events[j].event is Start) && !(events[j].event is Empty)
}

proof fn lemma_first_tag(events: Seq<EventAt>, i: int, k: int)
    requires
        first_tag_is(events, k),
        0 <= i <= k,
    ensures
        first_tag(events, i) == Some(k),
    decreases k - i,
{
    if i < k {
        assert(!(events[i].event is Start) && !(events[i].event is Empty));
        lemma_first_tag(events, i + 1, k);
    }
}

/// How a query ends. Where it has to compare numbers that are not known, it asks
/// for them. Otherwise a path that goes on behind a name with several matches is
/// refused, and what is collected anywhere else goes through the modifiers, each
/// place once.
pub proof fn law_queries_end_in_one_way(
    sink: SinkV,
    flow: FlowV,
    modifiers: Seq<Modifier>,
    name: Seq<char>,
    known: ReadingsV,
)
    ensures
        sink.asked.len() > 0 ==> outcome(sink, flow, modifiers, known) == Err::<
            Seq<ItemV>,
            ErrorV,
        >(ErrorV::NumbersNeeded(sink.asked)),
        sink.asked.len() == 0 && flow == FlowV::Ambiguous(name) ==> outcome(
            sink,
            flow,
            modifiers,
            known,
        ) == Err::<Seq<ItemV>, ErrorV>(ErrorV::Ambiguous(name)),
        sink.asked.len() == 0 && !(flow is Ambiguous) ==> outcome(sink, flow, modifiers, known)
            == all_modified(modifiers, once(sink.items), known),
        sink.asked.len() == 0 && !(flow is Ambiguous) && modifiers.len() == 0 ==> outcome(
            sink,
            flow,
            modifiers,
            known,
        ) == Ok::<Seq<ItemV>, ErrorV>(once(sink.items)),
{
}

/// How many programs of a list are there before `k`.
pub open spec fn there_before(programs: Seq<Option<ProgramV>>, k: int) -> nat
    decreases k,
{
    if k <= 0 {
        0
    } else {
        there_before(programs, k - 1) + if programs[k - 1] is Some {
            1nat
        } else {
            0nat
        }
    }
}

proof fn lemma_there_before(a: Seq<Option<ProgramV>>, b: Seq<Option<ProgramV>>, k: int)
    requires
        k <= a.len(),
        k <= b.len(),
        forall|j: int| 0 <= j < k ==> a[j] == b[j],
    ensures
        there_before(a, k) == there_before(b, k),
    decreases k,
{
    if k > 0 {
        lemma_there_before(a, b, k - 1);
    }
}

/// The programs that are there are run in their order, and each list of entries
/// goes to the program that it is of; one that is left out has an empty list.
pub proof fn law_lists_go_to_their_programs(
    programs: Seq<Option<ProgramV>>,
    lists: Seq<Seq<ItemV>>,
)
    ensures
        active(programs).len() == there_before(programs, programs.len() as int),
        spread(programs, lists).len() == programs.len(),
        forall|k: int|
            0 <= k < programs.len() ==> match #[trigger] programs[k] {
                Some(program) => {
                    &&& active(programs)[there_before(programs, k) as int] == program
                    &&& there_before(programs, k) < active(programs).len()
                    &&& spread(programs, lists)[k] == lists[there_before(programs, k) as int]
                },
                None => spread(programs, lists)[k].len() == 0,
            },
    decreases programs.len(),
{
    if programs.len() > 0 {
        let head = programs.drop_last();
        let last = programs.len() - 1;
        law_lists_go_to_their_programs(head, lists);
        lemma_there_before(programs, head, last);
        assert forall|k: int| 0 <= k < programs.len() implies match #[trigger] programs[k] {
            Some(program) => {
                &&& active(programs)[there_before(programs, k) as int] == program
                &&& there_before(programs, k) < active(programs).len()
                &&& spread(programs, lists)[k] == lists[there_before(programs, k) as int]
            },
            None => spread(programs, lists)[k].len() == 0,
        } by {
            if k < last {
                assert(head[k] == programs[k]);
                lemma_there_before(programs, head, k);
            }
        }
    }
}

/// A path that compiles is kept, once, and one that does not is not. What was kept
/// stays, unless the list is full: then it starts anew.
pub proof fn law_paths_are_kept_once(paths: Seq<Seq<char>>, path: Seq<char>)
    requires
        forall|i: int|
            0 <= i < paths.len() ==> compiled(#[trigger] paths[i]) is Ok,
        paths.len() <= PATH_CACHE_CAP,
    ensures
        kept_paths(paths, path).contains(path) <==> compiled(path) is Ok,
        kept_paths(paths, path).len() <= PATH_CACHE_CAP,
        compiled(path) is Err ==> kept_paths(paths, path) == paths,
        paths.contains(path) ==> kept_paths(paths, path) == paths,
        paths.len() < PATH_CACHE_CAP ==> forall|i: int|
            0 <= i < paths.len() ==> kept_paths(paths, path).len() > i && #[trigger] kept_paths(
                paths,
                path,
            )[i] == paths[i],
        paths.no_duplicates() ==> kept_paths(paths, path).no_duplicates(),
{
    let kept = kept_paths(paths, path);
    if paths.contains(path) {
        let i = choose|i: int| 0 <= i < paths.len() && paths[i] == path;
        assert(compiled(paths[i]) is Ok);
    } else if compiled(path) is Ok {
        assert(kept.last() == path);
        if paths.no_duplicates() {
            assert forall|i: int, j: int|
                0 <= i < kept.len() && 0 <= j < kept.len() && i != j implies kept[i]
                != kept[j] by {
                if kept.len() > 1 {
                    if i < paths.len() {
                        assert(paths[i] == kept[i]);
                        assert(paths.contains(paths[i]));
                    }
                    if j < paths.len() {
                        assert(paths[j] == kept[j]);
                        assert(paths.contains(paths[j]));
                    }
                }
            }
        }
    }
}

/// The error of a path that goes on behind several matches names the pattern.
pub proof fn law_ambiguity_is_told_with_the_name(name: Seq<char>, texts: Seq<Seq<char>>)
    ensures
        error_message(ErrorV::Ambiguous(name)) == "path is ambiguous: "@ + name
            + " matches multiple elements but the path continues; specify .N (single) or .# (each)"@,
        error_message(ErrorV::NumbersNeeded(texts))
            == "the path compares numbers that are not known"@,
{
}

/// A path that compiles is answered as its program is: with what that selects, or with
/// the error that it ends in. This holds of documents and of captured elements.
pub proof fn law_paths_are_answered_by_their_programs(
    bytes: Seq<u8>,
    path: Seq<char>,
    program: ProgramV,
    known: ReadingsV,
)
    requires
        path.len() > 0,
        compiled(path) == Ok::<ProgramV, ParseErrorV>(program),
    ensures
        match selected(program, bytes, known) {
            Ok(items) => got(bytes, path, known) == Ok::<Seq<ItemV>, QueryErrorV>(items),
            Err(error) => got(bytes, path, known) == Err::<Seq<ItemV>, QueryErrorV>(
                QueryErrorV::Engine(error),
            ),
        },
        match selected_within(program, bytes, known) {
            Ok(items) => got_in(seq![HeldV::Fragment(bytes)], path, known) == Ok::<
                Seq<ItemV>,
                QueryErrorV,
            >(items),
            Err(error) => got_in(seq![HeldV::Fragment(bytes)], path, known) == Err::<
                Seq<ItemV>,
                QueryErrorV,
            >(QueryErrorV::Engine(error)),
        },
{
}

} // verus!
