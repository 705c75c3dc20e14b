//! What holds of modifiers on every list of results.

use vstd::multiset::Multiset;
use vstd::prelude::*;
use vstd::utf8::{decode_utf8, encode_utf8, valid_utf8};

use crate::engine::ErrorV;
use crate::modifiers::{
    all_modified, by_number, by_text, distinct, has_text, keyed_items, lemma_order, modified,
    nan_place, number_of, numerals, place, sorted, sorts_before, unknown_among, KeyedV,
};
use crate::number::{is_numeral, Number, ReadingsV};
use crate::path::Modifier;
use crate::semantics::{element_text, text_of, ItemV};
use crate::text::{bytes_before, decimal, trimmed};

verus! {

/// Reversing twice gives the list back.
pub proof fn law_reverse_twice(items: Seq<ItemV>, known: ReadingsV)
    ensures
        all_modified(seq![Modifier::Reverse, Modifier::Reverse], items, known) == Ok::<
            Seq<ItemV>,
            ErrorV,
        >(items),
{
    let both = seq![Modifier::Reverse, Modifier::Reverse];
    reveal_with_fuel(all_modified, 3);
    assert(both.skip(1)[0] == Modifier::Reverse);
    assert(both.skip(1).skip(1).len() == 0);
    assert(items.reverse().reverse() =~= items);
}

/// The first of the reversed list is the last of the list.
pub proof fn law_first_of_reversed_is_last(items: Seq<ItemV>, known: ReadingsV)
    ensures
        all_modified(seq![Modifier::Reverse, Modifier::First], items, known) == all_modified(
            seq![Modifier::Last],
            items,
            known,
        ),
{
    let both = seq![Modifier::Reverse, Modifier::First];
    let last = seq![Modifier::Last];
    reveal_with_fuel(all_modified, 3);
    assert(both.skip(1)[0] == Modifier::First);
    assert(both.skip(1).skip(1).len() == 0);
    assert(last.skip(1).len() == 0);
    if items.len() > 1 {
        assert(seq![items.reverse()[0]] =~= seq![items.last()]);
    } else {
        assert(items.reverse() =~= items);
    }
}

/// Modifiers apply from left to right: applying more of them later is applying
/// them all at once.
pub proof fn law_modifiers_chain(
    first: Seq<Modifier>,
    then: Seq<Modifier>,
    items: Seq<ItemV>,
    known: ReadingsV,
)
    ensures
        all_modified(first + then, items, known) == match all_modified(first, items, known) {
            Ok(next) => all_modified(then, next, known),
            Err(error) => Err(error),
        },
    decreases first.len(),
{
    if first.len() == 0 {
        assert(first + then =~= then);
    } else {
        assert((first + then)[0] == first[0]);
        assert((first + then).skip(1) =~= first.skip(1) + then);
        if let Ok(next) = modified(first[0], items, known) {
            law_modifiers_chain(first.skip(1), then, next, known);
        }
    }
}

/// A count says how many entries there are, whatever was reordered before.
pub proof fn law_count_counts(items: Seq<ItemV>, known: ReadingsV)
    ensures
        modified(Modifier::Count, items, known) == Ok::<Seq<ItemV>, ErrorV>(
            seq![ItemV::Scalar(decimal(items.len()))],
        ),
        modified(Modifier::Sort, items, known) matches Ok(after) && after.len() == items.len(),
        modified(Modifier::Reverse, items, known) matches Ok(after) && after.len() == items.len(),
{
    let keys = Seq::new(items.len(), |i: int| by_text(items[i]));
    lemma_sorted_len(keys);
}

proof fn lemma_place_len(list: Seq<KeyedV>, entry: KeyedV)
    ensures
        place(list, entry).len() == list.len() + 1,
    decreases list.len(),
{
    if list.len() > 0 && sorts_before(list[0], entry) {
        lemma_place_len(list.skip(1), entry);
    }
}

proof fn lemma_sorted_len(entries: Seq<KeyedV>)
    ensures
        sorted(entries).len() == entries.len(),
    decreases entries.len(),
{
    if entries.len() > 0 {
        lemma_sorted_len(entries.skip(1));
        lemma_place_len(sorted(entries.skip(1)), entries[0]);
    }
}

/// Whether no entry sorts before one that comes earlier.
pub open spec fn in_order(entries: Seq<KeyedV>) -> bool {
    forall|i: int, j: int|
        0 <= i < j < entries.len() ==> !sorts_before(#[trigger] entries[j], #[trigger] entries[i])
}

proof fn lemma_place_in_order(list: Seq<KeyedV>, entry: KeyedV)
    requires
        in_order(list),
    ensures
        in_order(place(list, entry)),
        place(list, entry).to_multiset() == list.to_multiset().insert(entry),
        forall|k: int|
            0 <= k < place(list, entry).len() ==> #[trigger] place(list, entry)[k] == entry
                || list.contains(place(list, entry)[k]),
    decreases list.len(),
{
    broadcast use vstd::seq_lib::group_to_multiset_ensures;

    let out = place(list, entry);
    if list.len() > 0 && sorts_before(list[0], entry) {
        let rest = list.skip(1);
        assert forall|i: int, j: int| 0 <= i < j < rest.len() implies !sorts_before(
            #[trigger] rest[j],
            #[trigger] rest[i],
        ) by {
            assert(!sorts_before(list[j + 1], list[i + 1]));
        }
        lemma_place_in_order(rest, entry);
        let tail = place(rest, entry);
        assert(out =~= seq![list[0]] + tail);
        assert forall|i: int, j: int| 0 <= i < j < out.len() implies !sorts_before(
            #[trigger] out[j],
            #[trigger] out[i],
        ) by {
            assert(out[j] == tail[j - 1]);
            if i > 0 {
                assert(out[i] == tail[i - 1]);
            } else {
                if tail[j - 1] == entry {
                    lemma_order(list[0], entry, list[0]);
                } else {
                    let k = choose|k: int| 0 <= k < rest.len() && rest[k] == tail[j - 1];
                    assert(list[k + 1] == tail[j - 1]);
                    assert(!sorts_before(list[k + 1], list[0]));
                }
            }
        }
        assert forall|k: int| 0 <= k < out.len() implies #[trigger] out[k] == entry
            || list.contains(out[k]) by {
            if k > 0 {
                assert(out[k] == tail[k - 1]);
                if tail[k - 1] != entry {
                    let m = choose|m: int| 0 <= m < rest.len() && rest[m] == tail[k - 1];
                    assert(list[m + 1] == out[k]);
                }
            } else {
                assert(list[0] == out[0]);
            }
        }
        assert(list =~= seq![list[0]] + rest);
        vstd::seq_lib::lemma_multiset_commutative(seq![list[0]], rest);
        vstd::seq_lib::lemma_multiset_commutative(seq![list[0]], tail);
        assert(out.to_multiset() =~= list.to_multiset().insert(entry));
    } else {
        assert(out =~= seq![entry] + list);
        assert forall|i: int, j: int| 0 <= i < j < out.len() implies !sorts_before(
            #[trigger] out[j],
            #[trigger] out[i],
        ) by {
            assert(out[j] == list[j - 1]);
            if i > 0 {
                assert(out[i] == list[i - 1]);
            } else if j > 1 {
                assert(!sorts_before(list[j - 1], list[0]));
                lemma_order(list[j - 1], list[0], entry);
            }
        }
        assert forall|k: int| 0 <= k < out.len() implies #[trigger] out[k] == entry
            || list.contains(out[k]) by {
            if k > 0 {
                assert(out[k] == list[k - 1]);
            }
        }
        vstd::seq_lib::lemma_multiset_commutative(seq![entry], list);
        assert(seq![entry].to_multiset() =~= Multiset::singleton(entry)) by {
            assert(seq![entry] =~= Seq::empty().push(entry));
        }
        assert(out.to_multiset() =~= list.to_multiset().insert(entry));
    }
}

/// Sorting keeps every entry and puts them in ascending order.
pub proof fn law_sorting_orders(entries: Seq<KeyedV>)
    ensures
        sorted(entries).to_multiset() == entries.to_multiset(),
        in_order(sorted(entries)),
    decreases entries.len(),
{
    broadcast use vstd::seq_lib::group_to_multiset_ensures;

    if entries.len() > 0 {
        let rest = entries.skip(1);
        law_sorting_orders(rest);
        lemma_place_in_order(sorted(rest), entries[0]);
        assert(entries =~= seq![entries[0]] + rest);
        vstd::seq_lib::lemma_multiset_commutative(seq![entries[0]], rest);
        assert(seq![entries[0]].to_multiset() =~= Multiset::singleton(entries[0])) by {
            assert(seq![entries[0]] =~= Seq::empty().push(entries[0]));
        }
        assert(sorted(entries).to_multiset() =~= entries.to_multiset());
    }
}

/// The entries that sort like a given one, in the order in which they come.
pub open spec fn tied(entries: Seq<KeyedV>, like: KeyedV) -> Seq<KeyedV>
    decreases entries.len(),
{
    if entries.len() == 0 {
        Seq::empty()
    } else {
        let rest = tied(entries.skip(1), like);
        if !sorts_before(entries[0], like) && !sorts_before(like, entries[0]) {
            seq![entries[0]] + rest
        } else {
            rest
        }
    }
}

proof fn lemma_place_tied(list: Seq<KeyedV>, entry: KeyedV, like: KeyedV)
    ensures
        tied(place(list, entry), like) == tied(seq![entry] + list, like),
    decreases list.len(),
{
    let one = seq![entry] + list;
    assert(one.skip(1) =~= list);
    if list.len() > 0 && sorts_before(list[0], entry) {
        lemma_place_tied(list.skip(1), entry, like);
        let out = place(list, entry);
        assert(out.skip(1) =~= place(list.skip(1), entry));
        let two = seq![entry] + list.skip(1);
        assert(two.skip(1) =~= list.skip(1));
        lemma_order(list[0], like, entry);
        assert(out[0] == list[0]);
        assert(tied(out, like) == if !sorts_before(list[0], like) && !sorts_before(like, list[0]) {
            seq![list[0]] + tied(two, like)
        } else {
            tied(two, like)
        });
        assert(one[0] == entry && two[0] == entry);
        assert(tied(list, like) == if !sorts_before(list[0], like) && !sorts_before(
            like,
            list[0],
        ) {
            seq![list[0]] + tied(list.skip(1), like)
        } else {
            tied(list.skip(1), like)
        });
    }
}

/// Sorting is stable: entries that sort alike stay in the order they had.
pub proof fn law_sorting_is_stable(entries: Seq<KeyedV>, like: KeyedV)
    ensures
        tied(sorted(entries), like) == tied(entries, like),
    decreases entries.len(),
{
    if entries.len() > 0 {
        let rest = entries.skip(1);
        law_sorting_is_stable(rest, like);
        lemma_place_tied(sorted(rest), entries[0], like);
        let one = seq![entries[0]] + sorted(rest);
        assert(one.skip(1) =~= sorted(rest));
    }
}

/// What is in order stays as it is when it is sorted.
pub proof fn law_sorting_sorted(entries: Seq<KeyedV>)
    requires
        in_order(entries),
    ensures
        sorted(entries) == entries,
    decreases entries.len(),
{
    if entries.len() > 0 {
        let rest = entries.skip(1);
        assert forall|i: int, j: int| 0 <= i < j < rest.len() implies !sorts_before(
            #[trigger] rest[j],
            #[trigger] rest[i],
        ) by {
            assert(!sorts_before(entries[j + 1], entries[i + 1]));
        }
        law_sorting_sorted(rest);
        if rest.len() > 0 {
            assert(!sorts_before(entries[1], entries[0]));
        }
        assert(sorted(entries) =~= entries);
    } else {
        assert(sorted(entries) =~= entries);
    }
}

/// Deduplicating keeps exactly one entry of each text: no two kept entries
/// have the same text, and every text is kept.
pub proof fn law_unique_keeps_each_text_once(items: Seq<ItemV>)
    ensures
        forall|i: int, j: int|
            0 <= i < j < distinct(items).len() ==> text_of(#[trigger] distinct(items)[i])
                != text_of(#[trigger] distinct(items)[j]),
        forall|text: Seq<u8>| #[trigger] has_text(distinct(items), text) == has_text(items, text),
    decreases items.len(),
{
    if items.len() > 0 {
        let head = items.drop_last();
        let last = items.last();
        let kept = distinct(head);
        let out = distinct(items);
        law_unique_keeps_each_text_once(head);
        assert forall|i: int, j: int| 0 <= i < j < out.len() implies text_of(#[trigger] out[i])
            != text_of(#[trigger] out[j]) by {
            assert(out[i] == kept[i]);
            if j < kept.len() {
                assert(out[j] == kept[j]);
            }
        }
        assert forall|text: Seq<u8>| #[trigger] has_text(out, text) == has_text(items, text) by {
            assert(has_text(kept, text) == has_text(head, text));
            if has_text(items, text) {
                let k = choose|k: int| 0 <= k < items.len() && text_of(#[trigger] items[k]) == text;
                if k < head.len() {
                    assert(head[k] == items[k]);
                    assert(has_text(kept, text));
                    let m = choose|m: int| 0 <= m < kept.len() && text_of(#[trigger] kept[m]) == text;
                    assert(out[m] == kept[m]);
                } else if has_text(kept, text_of(last)) {
                    let m = choose|m: int| 0 <= m < kept.len() && text_of(#[trigger] kept[m]) == text;
                    assert(out[m] == kept[m]);
                } else {
                    assert(out[out.len() - 1] == last);
                }
            }
            if has_text(out, text) {
                let m = choose|m: int| 0 <= m < out.len() && text_of(#[trigger] out[m]) == text;
                if m < kept.len() {
                    assert(out[m] == kept[m]);
                    assert(has_text(kept, text));
                    let k = choose|k: int| 0 <= k < head.len() && text_of(#[trigger] head[k]) == text;
                    assert(items[k] == head[k]);
                } else {
                    assert(items[items.len() - 1] == last);
                }
            }
        }
    }
}

/// Deduplicating a second time changes nothing.
pub proof fn law_unique_twice(items: Seq<ItemV>)
    ensures
        distinct(distinct(items)) == distinct(items),
{
    law_unique_keeps_each_text_once(items);
    lemma_distinct_fixed(distinct(items));
}

proof fn lemma_distinct_fixed(items: Seq<ItemV>)
    requires
        forall|i: int, j: int|
            0 <= i < j < items.len() ==> text_of(#[trigger] items[i]) != text_of(
                #[trigger] items[j],
            ),
    ensures
        distinct(items) == items,
    decreases items.len(),
{
    if items.len() > 0 {
        let head = items.drop_last();
        assert forall|i: int, j: int| 0 <= i < j < head.len() implies text_of(#[trigger] head[i])
            != text_of(#[trigger] head[j]) by {
            assert(text_of(items[i]) != text_of(items[j]));
        }
        lemma_distinct_fixed(head);
        assert(!has_text(head, text_of(items.last()))) by {
            if has_text(head, text_of(items.last())) {
                let k = choose|k: int|
                    0 <= k < head.len() && text_of(#[trigger] head[k]) == text_of(items.last());
                assert(items[k] == head[k]);
                assert(text_of(items[k]) != text_of(items[items.len() - 1]));
            }
        }
        assert(distinct(items) =~= items);
    } else {
        assert(distinct(items) =~= items);
    }
}

/// Whether two lists have the same texts, entry by entry.
pub open spec fn same_text_each(a: Seq<ItemV>, b: Seq<ItemV>) -> bool {
    a.len() == b.len() && forall|i: int|
        0 <= i < a.len() ==> text_of(#[trigger] a[i]) == text_of(b[i])
}

/// Whether two outcomes of modifiers have the same texts, or the same error.
pub open spec fn outcomes_alike(
    a: Result<Seq<ItemV>, ErrorV>,
    b: Result<Seq<ItemV>, ErrorV>,
) -> bool {
    match (a, b) {
        (Ok(x), Ok(y)) => same_text_each(x, y),
        (Err(x), Err(y)) => x == y,
        _ => false,
    }
}

/// Modifiers look at texts only: lists with the same texts stay alike. This is
/// why elements can be captured as text where modifiers follow.
pub proof fn law_modifiers_see_texts(
    modifiers: Seq<Modifier>,
    a: Seq<ItemV>,
    b: Seq<ItemV>,
    known: ReadingsV,
)
    requires
        same_text_each(a, b),
    ensures
        outcomes_alike(all_modified(modifiers, a, known), all_modified(modifiers, b, known)),
    decreases modifiers.len(),
{
    if modifiers.len() > 0 {
        lemma_modifier_sees_texts(modifiers[0], a, b, known);
        if let Ok(x) = modified(modifiers[0], a, known) {
            if let Ok(y) = modified(modifiers[0], b, known) {
                law_modifiers_see_texts(modifiers.skip(1), x, y, known);
            }
        }
    }
}

proof fn lemma_modifier_sees_texts(
    modifier: Modifier,
    a: Seq<ItemV>,
    b: Seq<ItemV>,
    known: ReadingsV,
)
    requires
        same_text_each(a, b),
    ensures
        outcomes_alike(modified(modifier, a, known), modified(modifier, b, known)),
{
    lemma_numerals_alike(a, b);
    match modifier {
        Modifier::Reverse => {
            let x = a.reverse();
            let y = b.reverse();
            assert forall|i: int| 0 <= i < x.len() implies text_of(#[trigger] x[i]) == text_of(
                y[i],
            ) by {
                assert(text_of(a[a.len() - 1 - i]) == text_of(b[a.len() - 1 - i]));
            }
        },
        Modifier::First => {
            if a.len() > 1 {
                assert(text_of(a[0]) == text_of(b[0]));
            }
        },
        Modifier::Last => {
            if a.len() > 1 {
                assert(text_of(a[a.len() - 1]) == text_of(b[b.len() - 1]));
            }
        },
        Modifier::Sort => {
            let x = Seq::new(a.len(), |i: int| by_text(a[i]));
            let y = Seq::new(b.len(), |i: int| by_text(b[i]));
            assert(keys_alike(x, y)) by {
                assert forall|i: int| 0 <= i < x.len() implies key_alike(#[trigger] x[i], y[i]) by {
                    assert(text_of(a[i]) == text_of(b[i]));
                }
            }
            lemma_sorted_alike(x, y);
            lemma_items_alike(sorted(x), sorted(y));
        },
        Modifier::SortNumeric => {
            let nan = nan_place(numerals(a), known);
            let x = Seq::new(a.len(), |i: int| by_number(a[i], known, nan));
            let y = Seq::new(b.len(), |i: int| by_number(b[i], known, nan));
            assert(keys_alike(x, y)) by {
                assert forall|i: int| 0 <= i < x.len() implies key_alike(#[trigger] x[i], y[i]) by {
                    assert(text_of(a[i]) == text_of(b[i]));
                }
            }
            lemma_sorted_alike(x, y);
            lemma_items_alike(sorted(x), sorted(y));
        },
        Modifier::Unique => {
            lemma_distinct_alike(a, b);
        },
        _ => {},
    }
}

proof fn lemma_numerals_alike(a: Seq<ItemV>, b: Seq<ItemV>)
    requires
        same_text_each(a, b),
    ensures
        numerals(a) == numerals(b),
    decreases a.len(),
{
    if a.len() > 0 {
        lemma_heads_alike(a, b);
        lemma_numerals_alike(a.drop_last(), b.drop_last());
    }
}

proof fn lemma_heads_alike(a: Seq<ItemV>, b: Seq<ItemV>)
    requires
        same_text_each(a, b),
        a.len() > 0,
    ensures
        same_text_each(a.drop_last(), b.drop_last()),
        text_of(a.last()) == text_of(b.last()),
{
    assert forall|i: int| 0 <= i < a.drop_last().len() implies text_of(#[trigger] a.drop_last()[i])
        == text_of(b.drop_last()[i]) by {
        assert(text_of(a[i]) == text_of(b[i]));
    }
    assert(text_of(a[a.len() - 1]) == text_of(b[b.len() - 1]));
}

proof fn lemma_distinct_alike(a: Seq<ItemV>, b: Seq<ItemV>)
    requires
        same_text_each(a, b),
    ensures
        same_text_each(distinct(a), distinct(b)),
    decreases a.len(),
{
    if a.len() > 0 {
        lemma_heads_alike(a, b);
        lemma_distinct_alike(a.drop_last(), b.drop_last());
        let x = distinct(a.drop_last());
        let y = distinct(b.drop_last());
        let text = text_of(a.last());
        if has_text(x, text) {
            let k = choose|k: int| 0 <= k < x.len() && text_of(#[trigger] x[k]) == text;
            assert(text_of(y[k]) == text);
        }
        if has_text(y, text) {
            let k = choose|k: int| 0 <= k < y.len() && text_of(#[trigger] y[k]) == text;
            assert(text_of(x[k]) == text);
        }
    }
}

/// Whether two entries sort alike and have the same text.
spec fn key_alike(a: KeyedV, b: KeyedV) -> bool {
    a.number == b.number && a.bytes == b.bytes && text_of(a.item) == text_of(b.item)
}

spec fn keys_alike(a: Seq<KeyedV>, b: Seq<KeyedV>) -> bool {
    a.len() == b.len() && forall|i: int| 0 <= i < a.len() ==> key_alike(#[trigger] a[i], b[i])
}

proof fn lemma_place_alike(a: Seq<KeyedV>, b: Seq<KeyedV>, x: KeyedV, y: KeyedV)
    requires
        keys_alike(a, b),
        key_alike(x, y),
    ensures
        keys_alike(place(a, x), place(b, y)),
    decreases a.len(),
{
    if a.len() > 0 {
        assert(key_alike(a[0], b[0]));
        if sorts_before(a[0], x) {
            assert forall|i: int| 0 <= i < a.skip(1).len() implies key_alike(
                #[trigger] a.skip(1)[i],
                b.skip(1)[i],
            ) by {
                assert(key_alike(a[i + 1], b[i + 1]));
            }
            lemma_place_alike(a.skip(1), b.skip(1), x, y);
            let p = place(a.skip(1), x);
            let q = place(b.skip(1), y);
            assert forall|i: int| 0 <= i < place(a, x).len() implies key_alike(
                #[trigger] place(a, x)[i],
                place(b, y)[i],
            ) by {
                if i > 0 {
                    assert(key_alike(p[i - 1], q[i - 1]));
                }
            }
        } else {
            assert forall|i: int| 0 <= i < place(a, x).len() implies key_alike(
                #[trigger] place(a, x)[i],
                place(b, y)[i],
            ) by {
                if i > 0 {
                    assert(key_alike(a[i - 1], b[i - 1]));
                }
            }
        }
    }
}

proof fn lemma_sorted_alike(a: Seq<KeyedV>, b: Seq<KeyedV>)
    requires
        keys_alike(a, b),
    ensures
        keys_alike(sorted(a), sorted(b)),
    decreases a.len(),
{
    if a.len() > 0 {
        assert forall|i: int| 0 <= i < a.skip(1).len() implies key_alike(
            #[trigger] a.skip(1)[i],
            b.skip(1)[i],
        ) by {
            assert(key_alike(a[i + 1], b[i + 1]));
        }
        lemma_sorted_alike(a.skip(1), b.skip(1));
        assert(key_alike(a[0], b[0]));
        lemma_place_alike(sorted(a.skip(1)), sorted(b.skip(1)), a[0], b[0]);
    }
}

proof fn lemma_items_alike(a: Seq<KeyedV>, b: Seq<KeyedV>)
    requires
        keys_alike(a, b),
    ensures
        same_text_each(keyed_items(a), keyed_items(b)),
{
    assert forall|i: int| 0 <= i < keyed_items(a).len() implies text_of(
        #[trigger] keyed_items(a)[i],
    ) == text_of(keyed_items(b)[i]) by {
        assert(key_alike(a[i], b[i]));
    }
}

/// The numerals of a list are those of its entries, one after the other and one
/// for each entry whose text is a numeral, white space around it aside: also
/// where a numeral occurs again.
pub proof fn law_numerals_are_those_of_the_entries(a: Seq<ItemV>, b: Seq<ItemV>, x: ItemV)
    ensures
        numerals(a + b) == numerals(a) + numerals(b),
        numerals(seq![x]) == {
            let text = trimmed(decode_utf8(text_of(x)));
            if valid_utf8(text_of(x)) && is_numeral(text) {
                seq![text]
            } else {
                Seq::<Seq<char>>::empty()
            }
        },
        numerals(Seq::<ItemV>::empty()) == Seq::<Seq<char>>::empty(),
    decreases b.len(),
{
    let one = seq![x];
    assert(one.drop_last() =~= Seq::empty());
    assert(one.last() == x);
    assert(numerals(one.drop_last()) =~= Seq::empty());
    assert(Seq::<Seq<char>>::empty().push(trimmed(decode_utf8(text_of(x)))) =~= seq![
        trimmed(decode_utf8(text_of(x))),
    ]);
    if b.len() == 0 {
        assert(a + b =~= a);
        assert(numerals(a) + numerals(b) =~= numerals(a));
    } else {
        law_numerals_are_those_of_the_entries(a, b.drop_last(), x);
        assert((a + b).drop_last() =~= a + b.drop_last());
        assert((a + b).last() == b.last());
        assert(numerals(a + b) =~= numerals(a) + numerals(b));
    }
}

/// Whether the text of an entry is a numeral, white space around it aside.
pub open spec fn is_number_entry(item: ItemV) -> bool {
    valid_utf8(text_of(item)) && is_numeral(trimmed(decode_utf8(text_of(item))))
}

/// How many entries a list has whose texts are numerals.
pub open spec fn number_entries(items: Seq<ItemV>) -> nat {
    items.filter(|item: ItemV| is_number_entry(item)).len()
}

/// There are as many numerals as entries whose texts are numerals.
pub proof fn law_each_number_counts(items: Seq<ItemV>)
    ensures
        numerals(items).len() == number_entries(items),
    decreases items.len(),
{
    reveal(Seq::filter);
    if items.len() > 0 {
        law_each_number_counts(items.drop_last());
    }
}

/// Of numerals exactly those are unknown whose numbers are not known, each as
/// often as it stands there, in order.
pub proof fn law_unknown_numerals_are_those_without_number(
    a: Seq<Seq<char>>,
    b: Seq<Seq<char>>,
    text: Seq<char>,
    known: ReadingsV,
)
    ensures
        unknown_among(a + b, known) == unknown_among(a, known) + unknown_among(b, known),
        unknown_among(seq![text], known) == if known.numbers.contains_key(text) {
            Seq::<Seq<char>>::empty()
        } else {
            seq![text]
        },
    decreases b.len(),
{
    let one = seq![text];
    assert(one.drop_last() =~= Seq::empty());
    assert(unknown_among(one.drop_last(), known) =~= Seq::empty());
    assert(Seq::<Seq<char>>::empty().push(text) =~= seq![text]);
    if b.len() == 0 {
        assert(a + b =~= a);
        assert(unknown_among(a, known) + unknown_among(b, known) =~= unknown_among(a, known));
    } else {
        law_unknown_numerals_are_those_without_number(a, b.drop_last(), text, known);
        assert((a + b).drop_last() =~= a + b.drop_last());
        assert((a + b).last() == b.last());
        assert(unknown_among(a + b, known) =~= unknown_among(a, known) + unknown_among(b, known));
    }
}

/// The sum, the mean, the least and the greatest of a list are what is known of
/// its numerals; where nothing is, that is asked for, with all of them.
pub proof fn law_totals_are_over_all_numerals(
    modifier: Modifier,
    items: Seq<ItemV>,
    known: ReadingsV,
)
    requires
        modifier == Modifier::Sum || modifier == Modifier::Avg || modifier == Modifier::Min
            || modifier == Modifier::Max,
    ensures
        modified(modifier, items, known) == if known.totals.contains_key(
            (modifier, numerals(items)),
        ) {
            Ok::<Seq<ItemV>, ErrorV>(
                seq![ItemV::Scalar(encode_utf8(known.totals[(modifier, numerals(items))]))],
            )
        } else {
            Err(ErrorV::TotalNeeded(modifier, numerals(items)))
        },
{
}

/// Reversing puts every entry as far from the end as it was from the beginning.
pub proof fn law_reversing_turns_the_list(items: Seq<ItemV>, known: ReadingsV)
    ensures
        modified(Modifier::Reverse, items, known) matches Ok(out) && out.len() == items.len()
            && forall|i: int|
            0 <= i < items.len() ==> out[i] == #[trigger] items[items.len() - 1 - i],
{
    let out = items.reverse();
    assert forall|i: int| 0 <= i < items.len() implies out[i] == #[trigger] items[items.len() - 1
        - i] by {}
}

/// The first and the last of a list are its first and its last entry; a list
/// without entries has neither.
pub proof fn law_first_and_last_pick_one(items: Seq<ItemV>, known: ReadingsV)
    ensures
        modified(Modifier::First, items, known) == Ok::<Seq<ItemV>, ErrorV>(
            if items.len() == 0 {
                Seq::empty()
            } else {
                seq![items[0]]
            },
        ),
        modified(Modifier::Last, items, known) == Ok::<Seq<ItemV>, ErrorV>(
            if items.len() == 0 {
                Seq::empty()
            } else {
                seq![items[items.len() - 1]]
            },
        ),
{
    if items.len() == 0 {
        assert(items =~= Seq::empty());
    } else if items.len() == 1 {
        assert(items =~= seq![items[0]]);
    }
}

/// Flattening and turning into strings change no list: results are flat, and
/// their entries are read as strings anyway.
pub proof fn law_flat_lists_stay(items: Seq<ItemV>, known: ReadingsV)
    ensures
        modified(Modifier::Flatten, items, known) == Ok::<Seq<ItemV>, ErrorV>(items),
        modified(Modifier::Tostr, items, known) == Ok::<Seq<ItemV>, ErrorV>(items),
{
}

/// The text of an entry is its value, or the text content of an element.
pub proof fn law_entries_have_texts(bytes: Seq<u8>)
    ensures
        text_of(ItemV::Scalar(bytes)) == bytes,
        text_of(ItemV::Text(bytes)) == bytes,
        text_of(ItemV::Element(bytes)) == element_text(bytes),
{
}

proof fn lemma_bytes_total(a: Seq<u8>, b: Seq<u8>)
    ensures
        a == b || bytes_before(a, b) || bytes_before(b, a),
    decreases a.len(),
{
    if a.len() > 0 && b.len() > 0 {
        lemma_bytes_total(a.drop_first(), b.drop_first());
        if a.drop_first() == b.drop_first() && a[0] == b[0] {
            assert(a =~= seq![a[0]] + a.drop_first());
            assert(b =~= seq![b[0]] + b.drop_first());
        }
    } else if a.len() == 0 && b.len() == 0 {
        assert(a =~= b);
    }
}

proof fn lemma_place_splits(list: Seq<KeyedV>, entry: KeyedV) -> (p: int)
    ensures
        0 <= p <= list.len(),
        place(list, entry) == list.take(p) + seq![entry] + list.skip(p),
    decreases list.len(),
{
    if list.len() > 0 && sorts_before(list[0], entry) {
        let p = lemma_place_splits(list.skip(1), entry);
        assert(place(list, entry) =~= list.take(p + 1) + seq![entry] + list.skip(p + 1));
        p + 1
    } else {
        assert(place(list, entry) =~= list.take(0) + seq![entry] + list.skip(0));
        0
    }
}

proof fn lemma_sorted_items(entries: Seq<KeyedV>)
    ensures
        keyed_items(sorted(entries)).to_multiset() == keyed_items(entries).to_multiset(),
        forall|k: int|
            0 <= k < sorted(entries).len() ==> entries.contains(#[trigger] sorted(entries)[k]),
    decreases entries.len(),
{
    broadcast use vstd::seq_lib::group_to_multiset_ensures;

    if entries.len() > 0 {
        let rest = entries.skip(1);
        let list = sorted(rest);
        let entry = entries[0];
        lemma_sorted_items(rest);
        let p = lemma_place_splits(list, entry);
        let all = place(list, entry);
        let head = keyed_items(list.take(p));
        let tail = keyed_items(list.skip(p));
        let one = seq![entry.item];
        assert(keyed_items(all) =~= head + one + tail);
        assert(keyed_items(list) =~= head + tail);
        assert(keyed_items(entries) =~= one + keyed_items(rest));
        vstd::seq_lib::lemma_multiset_commutative(head, tail);
        vstd::seq_lib::lemma_multiset_commutative(head, one);
        vstd::seq_lib::lemma_multiset_commutative(head + one, tail);
        vstd::seq_lib::lemma_multiset_commutative(one, keyed_items(rest));
        assert(keyed_items(all).to_multiset() =~= keyed_items(entries).to_multiset());
        assert forall|k: int| 0 <= k < all.len() implies entries.contains(#[trigger] all[k]) by {
            if k == p {
                assert(entries[0] == entry);
            } else {
                let m = if k < p {
                    k
                } else {
                    k - 1
                };
                assert(all[k] == list[m]);
                assert(rest.contains(list[m]));
                let n = choose|n: int| 0 <= n < rest.len() && rest[n] == list[m];
                assert(entries[n + 1] == all[k]);
            }
        }
    } else {
        assert(keyed_items(sorted(entries)) =~= keyed_items(entries));
    }
}

/// The entries with a text, in order.
pub open spec fn with_text(items: Seq<ItemV>, text: Seq<u8>) -> Seq<ItemV>
    decreases items.len(),
{
    if items.len() == 0 {
        Seq::empty()
    } else {
        let rest = with_text(items.skip(1), text);
        if text_of(items[0]) == text {
            seq![items[0]] + rest
        } else {
            rest
        }
    }
}

proof fn lemma_tied_texts(entries: Seq<KeyedV>, like: KeyedV)
    requires
        forall|k: int| 0 <= k < entries.len() ==> #[trigger] entries[k] == by_text(entries[k].item),
        like.number is None,
    ensures
        keyed_items(tied(entries, like)) == with_text(keyed_items(entries), like.bytes),
    decreases entries.len(),
{
    let items = keyed_items(entries);
    if entries.len() > 0 {
        let rest = entries.skip(1);
        assert forall|k: int| 0 <= k < rest.len() implies #[trigger] rest[k] == by_text(
            rest[k].item,
        ) by {
            assert(rest[k] == entries[k + 1]);
        }
        lemma_tied_texts(rest, like);
        assert(items.skip(1) =~= keyed_items(rest));
        assert(entries[0] == by_text(entries[0].item));
        lemma_bytes_total(entries[0].bytes, like.bytes);
        lemma_order(like, like, like);
        lemma_order(entries[0], entries[0], entries[0]);
        assert(keyed_items(tied(entries, like)) =~= with_text(items, like.bytes));
    } else {
        assert(keyed_items(tied(entries, like)) =~= with_text(items, like.bytes));
    }
}

/// Sorting keeps every entry, puts no text before a smaller one, and leaves the
/// entries of one text in the order they had.
pub proof fn law_sorting_is_by_text(items: Seq<ItemV>, text: Seq<u8>, known: ReadingsV)
    ensures
        modified(Modifier::Sort, items, known) matches Ok(out) && {
            &&& out.to_multiset() == items.to_multiset()
            &&& forall|i: int, j: int|
                0 <= i < j < out.len() ==> !bytes_before(
                    text_of(#[trigger] out[j]),
                    text_of(#[trigger] out[i]),
                )
            &&& with_text(out, text) == with_text(items, text)
        },
{
    let keys = Seq::new(items.len(), |i: int| by_text(items[i]));
    let all = sorted(keys);
    let out = keyed_items(all);
    assert(keyed_items(keys) =~= items);
    lemma_sorted_items(keys);
    law_sorting_orders(keys);
    assert forall|k: int| 0 <= k < all.len() implies #[trigger] all[k] == by_text(all[k].item) by {
        assert(keys.contains(all[k]));
        let m = choose|m: int| 0 <= m < keys.len() && keys[m] == all[k];
    }
    assert forall|i: int, j: int| 0 <= i < j < out.len() implies !bytes_before(
        text_of(#[trigger] out[j]),
        text_of(#[trigger] out[i]),
    ) by {
        assert(!sorts_before(all[j], all[i]));
        assert(all[i] == by_text(all[i].item));
        assert(all[j] == by_text(all[j].item));
    }
    let like = KeyedV { number: None, bytes: text, item: ItemV::Scalar(text) };
    law_sorting_is_stable(keys, like);
    lemma_tied_texts(keys, like);
    lemma_tied_texts(all, like);
}

/// The number of an entry, where its text is a numeral of which the number is
/// known.
pub open spec fn entry_number(item: ItemV, known: ReadingsV) -> Option<Number> {
    let text = trimmed(decode_utf8(text_of(item)));
    if is_number_entry(item) && known.numbers.contains_key(text) {
        Some(known.numbers[text])
    } else {
        None
    }
}

/// The entries with a number, in order.
pub open spec fn with_number(items: Seq<ItemV>, n: i64, known: ReadingsV) -> Seq<ItemV>
    decreases items.len(),
{
    if items.len() == 0 {
        Seq::empty()
    } else {
        let rest = with_number(items.skip(1), n, known);
        if entry_number(items[0], known) == Some(Number::Value(n)) {
            seq![items[0]] + rest
        } else {
            rest
        }
    }
}

proof fn lemma_tied_numbers(entries: Seq<KeyedV>, like: KeyedV, n: i64, known: ReadingsV, nan: int)
    requires
        forall|k: int|
            0 <= k < entries.len() ==> #[trigger] entries[k] == by_number(
                entries[k].item,
                known,
                nan,
            ),
        like.number == Some(n as int),
    ensures
        with_number(keyed_items(tied(entries, like)), n, known) == with_number(
            keyed_items(entries),
            n,
            known,
        ),
    decreases entries.len(),
{
    let items = keyed_items(entries);
    if entries.len() > 0 {
        let rest = entries.skip(1);
        assert forall|k: int| 0 <= k < rest.len() implies #[trigger] rest[k] == by_number(
            rest[k].item,
            known,
            nan,
        ) by {
            assert(rest[k] == entries[k + 1]);
        }
        lemma_tied_numbers(rest, like, n, known, nan);
        assert(items.skip(1) =~= keyed_items(rest));
        assert(entries[0] == by_number(entries[0].item, known, nan));
        let kept = tied(entries, like);
        if !sorts_before(entries[0], like) && !sorts_before(like, entries[0]) {
            assert(keyed_items(kept)[0] == entries[0].item);
            assert(keyed_items(kept).skip(1) =~= keyed_items(tied(rest, like)));
        }
    } else {
        assert(keyed_items(tied(entries, like)) =~= items);
    }
}

proof fn lemma_entry_number(item: ItemV, known: ReadingsV, nan: int)
    ensures
        number_of(item, known, nan) == match entry_number(item, known) {
            Some(Number::Value(n)) => Some(n as int),
            Some(Number::Nan) => Some(nan),
            None => None,
        },
{
}

/// Sorting by number keeps every entry. Of two numbers the smaller comes first,
/// every number comes before what is no number, the rest is sorted by text, and
/// the entries of one number stay in the order they had. It takes all numbers to
/// be known; those that are not are asked for.
pub proof fn law_sorting_is_by_number(items: Seq<ItemV>, n: i64, known: ReadingsV)
    ensures
        match modified(Modifier::SortNumeric, items, known) {
            Ok(out) => {
                &&& out.to_multiset() == items.to_multiset()
                &&& forall|i: int, j: int|
                    0 <= i < j < out.len() ==> {
                        &&& match (
                            entry_number(#[trigger] out[i], known),
                            entry_number(#[trigger] out[j], known),
                        ) {
                            (Some(Number::Value(a)), Some(Number::Value(b))) => a <= b,
                            _ => true,
                        }
                        &&& entry_number(out[j], known) is Some ==> entry_number(
                            out[i],
                            known,
                        ) is Some
                        &&& entry_number(out[i], known) is None ==> !bytes_before(
                            text_of(out[j]),
                            text_of(out[i]),
                        )
                    }
                &&& with_number(out, n, known) == with_number(items, n, known)
                &&& unknown_among(numerals(items), known).len() == 0
            },
            Err(error) => {
                &&& error == ErrorV::NumbersNeeded(unknown_among(numerals(items), known))
                &&& unknown_among(numerals(items), known).len() > 0
            },
        },
{
    let nan = nan_place(numerals(items), known);
    let keys = Seq::new(items.len(), |i: int| by_number(items[i], known, nan));
    let all = sorted(keys);
    let out = keyed_items(all);
    assert(keyed_items(keys) =~= items);
    lemma_sorted_items(keys);
    law_sorting_orders(keys);
    assert forall|k: int| 0 <= k < all.len() implies #[trigger] all[k] == by_number(
        all[k].item,
        known,
        nan,
    ) by {
        assert(keys.contains(all[k]));
        let m = choose|m: int| 0 <= m < keys.len() && keys[m] == all[k];
    }
    assert forall|i: int, j: int| 0 <= i < j < out.len() implies {
        &&& match (
            entry_number(#[trigger] out[i], known),
            entry_number(#[trigger] out[j], known),
        ) {
            (Some(Number::Value(a)), Some(Number::Value(b))) => a <= b,
            _ => true,
        }
        &&& entry_number(out[j], known) is Some ==> entry_number(out[i], known) is Some
        &&& entry_number(out[i], known) is None ==> !bytes_before(text_of(out[j]), text_of(out[i]))
    } by {
        assert(!sorts_before(all[j], all[i]));
        assert(all[i] == by_number(all[i].item, known, nan));
        assert(all[j] == by_number(all[j].item, known, nan));
        assert(out[i] == all[i].item && out[j] == all[j].item);
        lemma_entry_number(out[i], known, nan);
        lemma_entry_number(out[j], known, nan);
    }
    let like = KeyedV { number: Some(n as int), bytes: Seq::empty(), item: ItemV::Scalar(Seq::empty()) };
    law_sorting_is_stable(keys, like);
    lemma_tied_numbers(keys, like, n, known, nan);
    lemma_tied_numbers(all, like, n, known, nan);
}

/// Whether an entry is the first of a list with its text.
pub open spec fn first_of_text(items: Seq<ItemV>, k: int) -> bool {
    &&& 0 <= k < items.len()
    &&& forall|j: int| 0 <= j < k ==> text_of(#[trigger] items[j]) != text_of(items[k])
}

/// Deduplicating keeps exactly the entries that are the first with their text,
/// in the order they had: `ks` tells where they stand.
pub proof fn law_unique_keeps_the_first_of_each_text(items: Seq<ItemV>, known: ReadingsV) -> (ks:
    Seq<int>)
    ensures
        modified(Modifier::Unique, items, known) matches Ok(out) && {
            &&& out.len() == ks.len()
            &&& forall|j: int|
                0 <= j < ks.len() ==> first_of_text(items, #[trigger] ks[j]) && out[j]
                    == items[ks[j]]
            &&& forall|j: int, m: int| 0 <= j < m < ks.len() ==> #[trigger] ks[j] < #[trigger] ks[m]
            &&& forall|k: int| #[trigger] first_of_text(items, k) ==> ks.contains(k)
        },
    decreases items.len(),
{
    if items.len() == 0 {
        Seq::empty()
    } else {
        let head = items.drop_last();
        let last = items.len() - 1;
        let before = distinct(head);
        let ks = law_unique_keeps_the_first_of_each_text(head, known);
        assert forall|j: int| 0 <= j < ks.len() implies first_of_text(items, #[trigger] ks[j])
            && before[j] == items[ks[j]] by {
            assert(first_of_text(head, ks[j]));
            assert forall|m: int| 0 <= m < ks[j] implies text_of(#[trigger] items[m]) != text_of(
                items[ks[j]],
            ) by {
                assert(text_of(head[m]) != text_of(head[ks[j]]));
            }
        }
        assert forall|k: int| first_of_text(items, k) && k < last implies first_of_text(head, k) by {
            assert forall|m: int| 0 <= m < k implies text_of(#[trigger] head[m]) != text_of(
                head[k],
            ) by {
                assert(text_of(items[m]) != text_of(items[k]));
            }
        }
        law_unique_keeps_each_text_once(head);
        let text = text_of(items.last());
        assert(has_text(before, text) == has_text(head, text));
        if has_text(before, text) {
            let m = choose|m: int| 0 <= m < head.len() && text_of(#[trigger] head[m]) == text;
            assert(text_of(items[m]) == text);
            assert(!first_of_text(items, last));
            assert forall|k: int| #[trigger] first_of_text(items, k) implies ks.contains(k) by {
                assert(first_of_text(head, k));
            }
            ks
        } else {
            let all = ks.push(last);
            assert(first_of_text(items, last)) by {
                assert forall|m: int| 0 <= m < last implies text_of(#[trigger] items[m])
                    != text by {
                    assert(head[m] == items[m]);
                }
            }
            assert forall|j: int, m: int| 0 <= j < m < all.len() implies #[trigger] all[j]
                < #[trigger] all[m] by {
                assert(first_of_text(head, ks[j]));
            }
            assert forall|k: int| #[trigger] first_of_text(items, k) implies all.contains(k) by {
                if k < last {
                    assert(first_of_text(head, k));
                    let j = choose|j: int| 0 <= j < ks.len() && ks[j] == k;
                    assert(all[j] == k);
                } else {
                    assert(all[ks.len() as int] == k);
                }
            }
            all
        }
    }
}

} // verus!
