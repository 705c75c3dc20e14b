//! What holds of the numbers that a query is told: what they decide stays
//! decided, and how they are compared.

use vstd::prelude::*;

use crate::engine::{selected, selected_within};
use crate::laws::{
    law_selection_adds, lemma_descend_adds, lemma_empty_adds, lemma_hit_adds, lemma_in_empty_adds,
    lemma_scan_adds, lemma_start_adds, lemma_test_adds, lemma_within_adds,
};
use crate::modifiers::{
    all_modified, by_number, modified, nan_place, numeral_of, numerals, unknown_among,
};
use crate::number::{is_numeral, Number, ReadingsV};
use crate::path::{FilterOp, FilterV, Modifier, ProgramV, StepV, ValueV};
use crate::semantics::{
    after, attr_test, compare, compare_numbers, descend, empty_hit, enter, filter_hit, filter_of,
    filter_test, first_tag, fragment, hit, hits, nothing, once, onward, scan, simple_child,
    start_hit, text_of, within, ItemV, SinkV,
};
use crate::text::{text_or_empty, trimmed};
use crate::xml::{doc_at, doc_of, empty_element, place_at, DocV, EventV, TagV};

verus! {

/// `!=` is the opposite of `==`, once the numbers are known that it compares.
pub proof fn law_not_equal_is_opposite_of_equal(
    raw: Seq<char>,
    value: ValueV,
    known: ReadingsV,
)
    ensures
        compare(raw, FilterOp::Ne, value, known).1 == compare(raw, FilterOp::Eq, value, known).1,
        compare(raw, FilterOp::Eq, value, known).1.len() == 0 ==> compare(
            raw,
            FilterOp::Ne,
            value,
            known,
        ).0 == !compare(raw, FilterOp::Eq, value, known).0,
{
}

/// `!%` is the opposite of `%` where the value is text.
pub proof fn law_glob_mismatch_is_opposite_of_match(
    raw: Seq<char>,
    pattern: Seq<char>,
    known: ReadingsV,
)
    ensures
        compare(raw, FilterOp::GlobNotMatch, ValueV::Text(pattern), known).0 == !compare(
            raw,
            FilterOp::GlobMatch,
            ValueV::Text(pattern),
            known,
        ).0,
{
}

/// Of two numbers that are both known, and neither of which is not-a-number,
/// the first is below, the same as or above the second, and `<=` and `>=` mean
/// that it is not above or not below.
pub proof fn law_numbers_are_ordered(
    raw: Seq<char>,
    numeral: Seq<char>,
    known: ReadingsV,
    a: i64,
    b: i64,
)
    requires
        known.numbers.contains_pair(trimmed(raw), Number::Value(a)),
        known.numbers.contains_pair(trimmed(numeral), Number::Value(b)),
    ensures
        ({
            let holds = |op: FilterOp| compare(raw, op, ValueV::Number(numeral), known).0;
            is_numeral(trimmed(raw)) && is_numeral(trimmed(numeral)) ==> {
                &&& holds(FilterOp::Lt) == (a < b)
                &&& holds(FilterOp::Eq) == (a == b)
                &&& holds(FilterOp::Gt) == (a > b)
                &&& holds(FilterOp::Le) == !holds(FilterOp::Gt)
                &&& holds(FilterOp::Ge) == !holds(FilterOp::Lt)
            }
        }),
{
    assert(known.numbers[trimmed(raw)] == Number::Value(a));
    assert(known.numbers[trimmed(numeral)] == Number::Value(b));
}

/// Against a number, `<=` means `<` or `==`, and `>=` means `>` or `==`, once
/// the numbers are known that they compare; also where one is not-a-number.
pub proof fn law_or_equal_means_or_equal(raw: Seq<char>, numeral: Seq<char>, known: ReadingsV)
    ensures
        ({
            let tested = |op: FilterOp| compare(raw, op, ValueV::Number(numeral), known);
            &&& tested(FilterOp::Le).1 == tested(FilterOp::Eq).1
            &&& tested(FilterOp::Ge).1 == tested(FilterOp::Eq).1
            &&& tested(FilterOp::Lt).1 == tested(FilterOp::Eq).1
            &&& tested(FilterOp::Gt).1 == tested(FilterOp::Eq).1
            &&& tested(FilterOp::Eq).1.len() == 0 ==> {
                &&& tested(FilterOp::Le).0 == (tested(FilterOp::Lt).0 || tested(FilterOp::Eq).0)
                &&& tested(FilterOp::Ge).0 == (tested(FilterOp::Gt).0 || tested(FilterOp::Eq).0)
            }
        }),
{
}

/// Nothing is below or above a truth value.
pub proof fn law_truth_values_have_no_order(
    raw: Seq<char>,
    op: FilterOp,
    value: bool,
    known: ReadingsV,
)
    requires
        op == FilterOp::Lt || op == FilterOp::Le || op == FilterOp::Gt || op == FilterOp::Ge,
    ensures
        compare(raw, op, ValueV::Bool(value), known) == (false, Seq::<Seq<char>>::empty()),
{
}

/// Text that is no numeral is neither below, the same as nor above a number.
pub proof fn law_text_compares_with_no_number(
    raw: Seq<char>,
    op: FilterOp,
    numeral: Seq<char>,
    known: ReadingsV,
)
    ensures
        !is_numeral(trimmed(raw)) && op != FilterOp::Ne && op != FilterOp::GlobMatch && op
            != FilterOp::GlobNotMatch ==> compare(raw, op, ValueV::Number(numeral), known) == (
            false,
            Seq::<Seq<char>>::empty(),
        ),
{
}

/// Whether more is known, and all that was known.
pub open spec fn extends(known: ReadingsV, more: ReadingsV) -> bool {
    known.numbers.submap_of(more.numbers) && known.totals.submap_of(more.totals)
}

/// Whether nothing was asked for since.
pub open spec fn quiet(before: SinkV, then: SinkV) -> bool {
    then.asked.len() == before.asked.len()
}

proof fn lemma_compare_keeps(
    raw: Seq<char>,
    op: FilterOp,
    value: ValueV,
    known: ReadingsV,
    more: ReadingsV,
)
    requires
        extends(known, more),
    ensures
        compare(raw, op, value, known).1.len() == 0 ==> compare(raw, op, value, more) == compare(
            raw,
            op,
            value,
            known,
        ),
    decreases
            (if op == FilterOp::Ne {
                1int
            } else {
                0
            }),
{
    match value {
        ValueV::Text(s) => lemma_numbers_keep(raw, op, s, known, more),
        ValueV::Number(n) => lemma_numbers_keep(raw, op, n, known, more),
        ValueV::Bool(_) => {},
    }
    if op == FilterOp::Ne {
        lemma_compare_keeps(raw, FilterOp::Eq, value, known, more);
    }
}

proof fn lemma_numbers_keep(
    raw: Seq<char>,
    op: FilterOp,
    value: Seq<char>,
    known: ReadingsV,
    more: ReadingsV,
)
    requires
        extends(known, more),
    ensures
        compare_numbers(raw, op, value, known).1.len() == 0 ==> compare_numbers(
            raw,
            op,
            value,
            more,
        ) == compare_numbers(raw, op, value, known),
{
    let a = trimmed(raw);
    let b = trimmed(value);
    if known.numbers.contains_key(a) {
        assert(more.numbers.contains_key(a) && more.numbers[a] == known.numbers[a]);
    }
    if known.numbers.contains_key(b) {
        assert(more.numbers.contains_key(b) && more.numbers[b] == known.numbers[b]);
    }
}

proof fn lemma_enter_keeps(
    d: DocV,
    i: int,
    current: Option<TagV>,
    steps: Seq<StepV>,
    known: ReadingsV,
    more: ReadingsV,
    sink: SinkV,
)
    requires
        extends(known, more),
    ensures
        quiet(sink, enter(d, i, current, steps, known, sink).sink) ==> enter(
            d,
            i,
            current,
            steps,
            more,
            sink,
        ) == enter(d, i, current, steps, known, sink),
    decreases steps, d.events.len() - i, 4int,
{
    if steps.len() > 0 && steps[0] is Child {
        lemma_scan_keeps(d, i, steps, 0, known, more, sink);
    }
}

proof fn lemma_scan_keeps(
    d: DocV,
    i: int,
    steps: Seq<StepV>,
    count: nat,
    known: ReadingsV,
    more: ReadingsV,
    sink: SinkV,
)
    requires
        extends(known, more),
        steps.len() > 0,
    ensures
        quiet(sink, scan(d, i, steps, count, known, sink).sink) ==> scan(
            d,
            i,
            steps,
            count,
            more,
            sink,
        ) == scan(d, i, steps, count, known, sink),
    decreases steps, d.events.len() - i, 3int,
{
    if let StepV::Child { name, index, descendant } = steps[0] {
        if 0 <= i < d.events.len() {
            match d.events[i].event {
                EventV::Start(tag) => if hits(name, tag) {
                    let r = hit(d, i, tag, steps, count + 1, known, sink);
                    let j = onward(d.events, i, r.next);
                    lemma_hit_keeps(d, i, tag, steps, count + 1, known, more, sink);
                    lemma_hit_adds(d, i, tag, steps, count + 1, known, sink);
                    let q = hit(d, i, tag, steps, count + 1, more, sink);
                    if r.flow is Go {
                        lemma_scan_adds(d, j, steps, count + 1, known, r.sink);
                        lemma_scan_keeps(d, j, steps, count + 1, known, more, r.sink);
                    }
                } else if descendant {
                    let r = enter(d, i + 1, Some(tag), steps, known, sink);
                    let j = onward(d.events, i, r.next);
                    lemma_enter_keeps(d, i + 1, Some(tag), steps, known, more, sink);
                    law_selection_adds(d, i + 1, Some(tag), steps, known, sink);
                    let q = enter(d, i + 1, Some(tag), steps, more, sink);
                    if r.flow is Go {
                        lemma_scan_adds(d, j, steps, count, known, r.sink);
                        lemma_scan_keeps(d, j, steps, count, known, more, r.sink);
                    }
                } else {
                    lemma_scan_keeps(
                        d,
                        after(d.events, i, tag),
                        steps,
                        count,
                        known,
                        more,
                        sink,
                    );
                },
                EventV::Empty(tag) => if hits(name, tag) {
                    let r = empty_hit(tag, place_at(d, i), steps, count + 1, known, sink);
                    lemma_empty_keeps(tag, place_at(d, i), steps, count + 1, known, more, sink);
                    lemma_empty_adds(tag, place_at(d, i), steps, count + 1, known, sink);
                    let q = empty_hit(tag, place_at(d, i), steps, count + 1, more, sink);
                    if r.flow is Go {
                        lemma_scan_adds(d, i + 1, steps, count + 1, known, r.sink);
                        lemma_scan_keeps(d, i + 1, steps, count + 1, known, more, r.sink);
                    }
                } else {
                    lemma_scan_keeps(d, i + 1, steps, count, known, more, sink);
                },
                EventV::End(_) => {},
                EventV::Error => {},
                _ => {
                    lemma_scan_keeps(d, i + 1, steps, count, known, more, sink);
                },
            }
        }
    }
}

proof fn lemma_descend_keeps(
    d: DocV,
    i: int,
    tag: TagV,
    rest: Seq<StepV>,
    known: ReadingsV,
    more: ReadingsV,
    sink: SinkV,
)
    requires
        extends(known, more),
    ensures
        quiet(sink, descend(d, i, tag, rest, known, sink).sink) ==> descend(
            d,
            i,
            tag,
            rest,
            more,
            sink,
        ) == descend(d, i, tag, rest, known, sink),
    decreases rest, d.events.len() - i, 5int,
{
    if rest.len() > 0 && i < d.events.len() {
        lemma_enter_keeps(d, i + 1, Some(tag), rest, known, more, sink);
    }
}

proof fn lemma_hit_keeps(
    d: DocV,
    i: int,
    tag: TagV,
    steps: Seq<StepV>,
    count: nat,
    known: ReadingsV,
    more: ReadingsV,
    sink: SinkV,
)
    requires
        extends(known, more),
        steps.len() > 0,
    ensures
        quiet(sink, hit(d, i, tag, steps, count, known, sink).sink) ==> hit(
            d,
            i,
            tag,
            steps,
            count,
            more,
            sink,
        ) == hit(d, i, tag, steps, count, known, sink),
    decreases steps, d.events.len() - i, 2int,
{
    lemma_start_keeps(d, i, tag, steps, count, known, more, sink);
    lemma_start_adds(d, i, tag, steps, count, known, sink);
    let r = start_hit(d, i, tag, steps, count, known, sink);
    if i < d.events.len() {
        law_selection_adds(d, i + 1, Some(tag), steps, known, r.sink);
        lemma_enter_keeps(d, i + 1, Some(tag), steps, known, more, r.sink);
    }
}

proof fn lemma_start_keeps(
    d: DocV,
    i: int,
    tag: TagV,
    steps: Seq<StepV>,
    count: nat,
    known: ReadingsV,
    more: ReadingsV,
    sink: SinkV,
)
    requires
        extends(known, more),
        steps.len() > 0,
    ensures
        quiet(sink, start_hit(d, i, tag, steps, count, known, sink).sink) ==> start_hit(
            d,
            i,
            tag,
            steps,
            count,
            more,
            sink,
        ) == start_hit(d, i, tag, steps, count, known, sink),
    decreases steps, d.events.len() - i, 1int,
{
    let rest = steps.subrange(1, steps.len() as int);
    lemma_descend_keeps(d, i, tag, rest, known, more, sink);
    if filter_of(steps[0]) is Some {
        lemma_filter_keeps(d, i, tag, steps, known, more, sink);
    }
}

proof fn lemma_filter_keeps(
    d: DocV,
    i: int,
    tag: TagV,
    steps: Seq<StepV>,
    known: ReadingsV,
    more: ReadingsV,
    sink: SinkV,
)
    requires
        extends(known, more),
        steps.len() > 0,
        filter_of(steps[0]) is Some,
    ensures
        quiet(sink, filter_hit(d, i, tag, steps, known, sink).sink) ==> filter_hit(
            d,
            i,
            tag,
            steps,
            more,
            sink,
        ) == filter_hit(d, i, tag, steps, known, sink),
    decreases steps, d.events.len() - i, 0int,
{
    let rest = steps.subrange(1, steps.len() as int);
    let filter = filter_of(steps[0])->0;
    match filter.attr_only {
        Some(name) => {
            if let Some(text) = crate::semantics::attr_text(tag, name) {
                lemma_compare_keeps(text, filter.op, filter.value, known, more);
            }
            let told = sink.ask(attr_test(tag, name, filter, known).1);
            lemma_descend_adds(d, i, tag, rest, known, told);
            lemma_descend_keeps(d, i, tag, rest, known, more, told);
        },
        None => {
            let bytes = fragment(d, i, after(d.events, i, tag));
            let t = filter_test(bytes, filter, known, sink);
            lemma_test_adds(bytes, filter, known, sink);
            lemma_test_keeps(bytes, filter, known, more, sink);
            lemma_within_adds(bytes, place_at(d, i), rest, known, t.sink);
            lemma_within_keeps(bytes, place_at(d, i), rest, known, more, t.sink);
        },
    }
}

proof fn lemma_empty_keeps(
    tag: TagV,
    place: nat,
    steps: Seq<StepV>,
    count: nat,
    known: ReadingsV,
    more: ReadingsV,
    sink: SinkV,
)
    requires
        extends(known, more),
        steps.len() > 0,
    ensures
        quiet(sink, empty_hit(tag, place, steps, count, known, sink).sink) ==> empty_hit(
            tag,
            place,
            steps,
            count,
            more,
            sink,
        ) == empty_hit(tag, place, steps, count, known, sink),
    decreases steps, 0int, 0int,
{
    let rest = steps.subrange(1, steps.len() as int);
    if let Some(filter) = filter_of(steps[0]) {
        let bytes = empty_element(tag);
        let t = filter_test(bytes, filter, known, sink);
        lemma_test_adds(bytes, filter, known, sink);
        lemma_test_keeps(bytes, filter, known, more, sink);
        lemma_in_empty_adds(tag, place, rest, t.sink);
    }
}

proof fn lemma_within_keeps(
    bytes: Seq<u8>,
    base: nat,
    steps: Seq<StepV>,
    known: ReadingsV,
    more: ReadingsV,
    sink: SinkV,
)
    requires
        extends(known, more),
    ensures
        quiet(sink, within(bytes, base, steps, known, sink).sink) ==> within(
            bytes,
            base,
            steps,
            more,
            sink,
        ) == within(bytes, base, steps, known, sink),
    decreases steps, doc_of(bytes).events.len() + 1, 0int,
{
    let d = doc_at(bytes, base);
    if steps.len() > 0 {
        if let Some(k) = first_tag(d.events, 0) {
            if 0 <= k < d.events.len() {
                if let EventV::Start(tag) = d.events[k].event {
                    lemma_enter_keeps(d, k + 1, Some(tag), steps, known, more, sink);
                }
            }
        }
    }
}

proof fn lemma_test_keeps(
    bytes: Seq<u8>,
    filter: FilterV,
    known: ReadingsV,
    more: ReadingsV,
    sink: SinkV,
)
    requires
        extends(known, more),
    ensures
        quiet(sink, filter_test(bytes, filter, known, sink).sink) ==> filter_test(
            bytes,
            filter,
            more,
            sink,
        ) == filter_test(bytes, filter, known, sink),
    decreases filter.path, doc_of(bytes).events.len() + 2, 0int,
{
    match simple_child(filter) {
        Some(name) => {
            if let Some(text) = crate::semantics::child_text(doc_of(bytes).events, 0, false, name) {
                lemma_compare_keeps(text_or_empty(text), filter.op, filter.value, known, more);
            }
        },
        None => {
            let fresh = SinkV { items: Seq::empty(), asked: sink.asked };
            let r = within(bytes, 0, filter.path, known, fresh);
            let text = text_or_empty(text_of(r.sink.items[0].item));
            lemma_within_adds(bytes, 0, filter.path, known, fresh);
            lemma_within_keeps(bytes, 0, filter.path, known, more, fresh);
            lemma_compare_keeps(text, filter.op, filter.value, known, more);
        },
    }
}

proof fn lemma_unknown_keeps(texts: Seq<Seq<char>>, known: ReadingsV, more: ReadingsV)
    requires
        extends(known, more),
    ensures
        unknown_among(texts, known).len() == 0 ==> unknown_among(texts, more).len() == 0 && forall|
            k: int,
        |
            0 <= k < texts.len() ==> known.numbers.contains_key(#[trigger] texts[k]),
    decreases texts.len(),
{
    if texts.len() > 0 {
        let head = texts.drop_last();
        lemma_unknown_keeps(head, known, more);
        if unknown_among(texts, known).len() == 0 {
            assert forall|k: int| 0 <= k < texts.len() implies known.numbers.contains_key(
                #[trigger] texts[k],
            ) by {
                if k < head.len() {
                    assert(head[k] == texts[k]);
                }
            }
            assert(known.numbers.contains_key(texts.last()));
        }
    }
}

proof fn lemma_nan_keeps(texts: Seq<Seq<char>>, known: ReadingsV, more: ReadingsV)
    requires
        extends(known, more),
        forall|k: int| 0 <= k < texts.len() ==> known.numbers.contains_key(#[trigger] texts[k]),
    ensures
        nan_place(texts, more) == nan_place(texts, known),
    decreases texts.len(),
{
    if texts.len() > 0 {
        let rest = texts.skip(1);
        assert(known.numbers.contains_key(texts[0]));
        assert(more.numbers.contains_key(texts[0]));
        assert forall|k: int| 0 <= k < rest.len() implies known.numbers.contains_key(
            #[trigger] rest[k],
        ) by {
            assert(rest[k] == texts[k + 1]);
        }
        lemma_nan_keeps(rest, known, more);
    }
}

proof fn lemma_numeral_among(items: Seq<ItemV>, i: int)
    requires
        0 <= i < items.len(),
    ensures
        numeral_of(items[i]) matches Some(text) ==> numerals(items).contains(text),
    decreases items.len(),
{
    let head = items.drop_last();
    let before = numerals(head);
    let all = numerals(items);
    if i < head.len() {
        assert(head[i] == items[i]);
        lemma_numeral_among(head, i);
        if let Some(text) = numeral_of(items[i]) {
            let k = choose|k: int| 0 <= k < before.len() && before[k] == text;
            assert(all[k] == text);
        }
    } else if let Some(text) = numeral_of(items[i]) {
        assert(all[before.len() as int] == text);
    }
}

proof fn lemma_modified_keeps(
    modifier: Modifier,
    items: Seq<ItemV>,
    known: ReadingsV,
    more: ReadingsV,
)
    requires
        extends(known, more),
        modified(modifier, items, known) is Ok,
    ensures
        modified(modifier, items, more) == modified(modifier, items, known),
{
    if modifier == Modifier::SortNumeric {
        let texts = numerals(items);
        lemma_unknown_keeps(texts, known, more);
        let nan = nan_place(texts, known);
        lemma_nan_keeps(texts, known, more);
        let a = Seq::new(items.len(), |i: int| by_number(items[i], known, nan));
        let b = Seq::new(items.len(), |i: int| by_number(items[i], more, nan));
        assert forall|i: int| 0 <= i < items.len() implies by_number(items[i], known, nan)
            == by_number(items[i], more, nan) by {
            lemma_numeral_among(items, i);
            if let Some(text) = numeral_of(items[i]) {
                let k = choose|k: int| 0 <= k < texts.len() && texts[k] == text;
                assert(known.numbers.contains_key(texts[k]));
                assert(more.numbers.contains_key(text));
            }
        }
        assert(a =~= b);
    } else {
        let key = (modifier, numerals(items));
        if known.totals.contains_key(key) {
            assert(more.totals.contains_key(key) && more.totals[key] == known.totals[key]);
        }
    }
}

proof fn lemma_all_modified_keeps(
    modifiers: Seq<Modifier>,
    items: Seq<ItemV>,
    known: ReadingsV,
    more: ReadingsV,
)
    requires
        extends(known, more),
        all_modified(modifiers, items, known) is Ok,
    ensures
        all_modified(modifiers, items, more) == all_modified(modifiers, items, known),
    decreases modifiers.len(),
{
    if modifiers.len() > 0 {
        lemma_modified_keeps(modifiers[0], items, known, more);
        if let Ok(next) = modified(modifiers[0], items, known) {
            lemma_all_modified_keeps(modifiers.skip(1), next, known, more);
        }
    }
}

/// A result that could be given with the numbers that were known stays the
/// same, whatever more becomes known.
pub proof fn law_more_numbers_change_no_result(
    program: ProgramV,
    xml: Seq<u8>,
    known: ReadingsV,
    more: ReadingsV,
)
    requires
        extends(known, more),
    ensures
        selected(program, xml, known) is Ok ==> selected(program, xml, more) == selected(
            program,
            xml,
            known,
        ),
        selected_within(program, xml, known) is Ok ==> selected_within(program, xml, more)
            == selected_within(program, xml, known),
{
    if program.steps.len() == 0 {
        if selected(program, xml, known) is Ok {
            lemma_all_modified_keeps(program.modifiers, once(Seq::empty()), known, more);
        }
    } else {
        let a = enter(doc_of(xml), 0, None, program.steps, known, nothing());
        lemma_enter_keeps(doc_of(xml), 0, None, program.steps, known, more, nothing());
        if selected(program, xml, known) is Ok {
            lemma_all_modified_keeps(program.modifiers, once(a.sink.items), known, more);
        }
        let b = within(xml, 0, program.steps, known, nothing());
        lemma_within_keeps(xml, 0, program.steps, known, more, nothing());
        if selected_within(program, xml, known) is Ok {
            lemma_all_modified_keeps(program.modifiers, once(b.sink.items), known, more);
        }
    }
}

} // verus!
