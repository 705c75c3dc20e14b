//! Modifiers: what is done to a list of results.

use vstd::prelude::*;
use vstd::utf8::{decode_utf8, encode_utf8, valid_utf8};

use crate::engine::{EngineError, ErrorV};
use crate::item::{all_unknown, item_text, items_view, Item};
use crate::number::{is_numeral, numeral_chars, texts_view, Number, Readings, ReadingsV};
use crate::path::Modifier;
use crate::semantics::{text_of, ItemV};
use crate::text::{
    bytes_before, chars_of, comes_before, copy_bytes, decimal, decimal_bytes, same_bytes, string_of,
    trim, trimmed, utf8_str,
};

verus! {

/// An entry with what it is sorted by: its number, if it is sorted by number
/// and has one, and else its text.
pub struct KeyedV {
    pub number: Option<int>,
    pub bytes: Seq<u8>,
    pub item: ItemV,
}

/// Whether one entry sorts strictly before another. Numbers sort before what
/// is not a number.
pub open spec fn sorts_before(a: KeyedV, b: KeyedV) -> bool {
    match (a.number, b.number) {
        (Some(x), Some(y)) => x < y,
        (Some(_), None) => true,
        (None, Some(_)) => false,
        (None, None) => bytes_before(a.bytes, b.bytes),
    }
}

/// A sorted list with one more entry, placed before those that it does not
/// sort behind.
pub open spec fn place(sorted: Seq<KeyedV>, entry: KeyedV) -> Seq<KeyedV>
    decreases sorted.len(),
{
    if sorted.len() > 0 && sorts_before(sorted[0], entry) {
        seq![sorted[0]] + place(sorted.skip(1), entry)
    } else {
        seq![entry] + sorted
    }
}

/// The entries in ascending order; equal ones stay in the order they had.
pub open spec fn sorted(entries: Seq<KeyedV>) -> Seq<KeyedV>
    decreases entries.len(),
{
    if entries.len() == 0 {
        Seq::empty()
    } else {
        place(sorted(entries.skip(1)), entries[0])
    }
}

/// The entries without what they were sorted by.
pub open spec fn keyed_items(entries: Seq<KeyedV>) -> Seq<ItemV> {
    Seq::new(entries.len(), |i: int| entries[i].item)
}

/// The numeral that the text of an entry is, white space around it aside.
pub open spec fn numeral_of(item: ItemV) -> Option<Seq<char>> {
    let bytes = text_of(item);
    if valid_utf8(bytes) && is_numeral(trimmed(decode_utf8(bytes))) {
        Some(trimmed(decode_utf8(bytes)))
    } else {
        None
    }
}

/// The numerals among the texts of the entries, in order.
pub open spec fn numerals(items: Seq<ItemV>) -> Seq<Seq<char>>
    decreases items.len(),
{
    if items.len() == 0 {
        Seq::empty()
    } else {
        let head = numerals(items.drop_last());
        match numeral_of(items.last()) {
            Some(text) => head.push(text),
            None => head,
        }
    }
}

/// The numerals whose numbers are not known.
pub open spec fn unknown_among(texts: Seq<Seq<char>>, known: ReadingsV) -> Seq<Seq<char>>
    decreases texts.len(),
{
    if texts.len() == 0 {
        Seq::empty()
    } else {
        let head = unknown_among(texts.drop_last(), known);
        if known.numbers.contains_key(texts.last()) {
            head
        } else {
            head.push(texts.last())
        }
    }
}

/// Where not-a-number stands among numerals: beside the first number. So it
/// is equal to all others where those are equal among themselves.
pub open spec fn nan_place(texts: Seq<Seq<char>>, known: ReadingsV) -> int
    decreases texts.len(),
{
    if texts.len() == 0 {
        0
    } else {
        match known.numbers.get(texts[0]) {
            Some(Number::Value(n)) => n as int,
            _ => nan_place(texts.skip(1), known),
        }
    }
}

/// The place of an entry in the order of numbers, if its text is a number.
pub open spec fn number_of(item: ItemV, known: ReadingsV, nan: int) -> Option<int> {
    match numeral_of(item) {
        Some(text) => match known.numbers.get(text) {
            Some(Number::Value(n)) => Some(n as int),
            Some(Number::Nan) => Some(nan),
            None => None,
        },
        None => None,
    }
}

/// An entry as it is sorted by its text.
pub open spec fn by_text(item: ItemV) -> KeyedV {
    KeyedV { number: None, bytes: text_of(item), item }
}

/// An entry as it is sorted by its number.
pub open spec fn by_number(item: ItemV, known: ReadingsV, nan: int) -> KeyedV {
    KeyedV { number: number_of(item, known, nan), bytes: text_of(item), item }
}

/// The entries without those whose text an earlier one has.
pub open spec fn distinct(items: Seq<ItemV>) -> Seq<ItemV>
    decreases items.len(),
{
    if items.len() == 0 {
        Seq::empty()
    } else {
        let head = distinct(items.drop_last());
        if has_text(head, text_of(items.last())) {
            head
        } else {
            head.push(items.last())
        }
    }
}

/// Whether an entry has the given text.
pub open spec fn has_text(items: Seq<ItemV>, text: Seq<u8>) -> bool {
    exists|i: int| 0 <= i < items.len() && text_of(#[trigger] items[i]) == text
}

/// What a modifier makes of a list of results.
pub open spec fn modified(modifier: Modifier, items: Seq<ItemV>, known: ReadingsV) -> Result<
    Seq<ItemV>,
    ErrorV,
> {
    match modifier {
        Modifier::Reverse => Ok(items.reverse()),
        Modifier::First => Ok(
            if items.len() > 1 {
                seq![items[0]]
            } else {
                items
            },
        ),
        Modifier::Last => Ok(
            if items.len() > 1 {
                seq![items.last()]
            } else {
                items
            },
        ),
        Modifier::Count => Ok(seq![ItemV::Scalar(decimal(items.len()))]),
        Modifier::Sort => Ok(
            keyed_items(sorted(Seq::new(items.len(), |i: int| by_text(items[i])))),
        ),
        Modifier::SortNumeric => {
            let unknown = unknown_among(numerals(items), known);
            let nan = nan_place(numerals(items), known);
            if unknown.len() > 0 {
                Err(ErrorV::NumbersNeeded(unknown))
            } else {
                Ok(
                    keyed_items(
                        sorted(Seq::new(items.len(), |i: int| by_number(items[i], known, nan))),
                    ),
                )
            }
        },
        Modifier::Unique => Ok(distinct(items)),
        Modifier::Flatten => Ok(items),
        Modifier::Tostr => Ok(items),
        _ => match known.totals.get((modifier, numerals(items))) {
            Some(total) => Ok(seq![ItemV::Scalar(encode_utf8(total))]),
            None => Err(ErrorV::TotalNeeded(modifier, numerals(items))),
        },
    }
}

/// What modifiers make of a list of results, applied from left to right.
pub open spec fn all_modified(
    modifiers: Seq<Modifier>,
    items: Seq<ItemV>,
    known: ReadingsV,
) -> Result<Seq<ItemV>, ErrorV>
    decreases modifiers.len(),
{
    if modifiers.len() == 0 {
        Ok(items)
    } else {
        match modified(modifiers[0], items, known) {
            Ok(next) => all_modified(modifiers.skip(1), next, known),
            Err(error) => Err(error),
        }
    }
}

/// An entry with what it is sorted by.
struct Keyed {
    number: Option<i64>,
    bytes: Vec<u8>,
    item: Item,
}

impl View for Keyed {
    type V = KeyedV;

    closed spec fn view(&self) -> KeyedV {
        KeyedV {
            number: match self.number {
                Some(n) => Some(n as int),
                None => None,
            },
            bytes: self.bytes@,
            item: self.item@,
        }
    }
}

closed spec fn keyed_view(entries: Seq<Keyed>) -> Seq<KeyedV> {
    Seq::new(entries.len(), |i: int| entries[i]@)
}

/// Whether `a` sorts strictly before `b`.
fn before(a: &Keyed, b: &Keyed) -> (r: bool)
    ensures
        r == sorts_before(a@, b@),
{
    match (a.number, b.number) {
        (Some(x), Some(y)) => x < y,
        (Some(_), None) => true,
        (None, Some(_)) => false,
        (None, None) => comes_before(a.bytes.as_slice(), b.bytes.as_slice()),
    }
}

/// Two sorted lists as one; on a tie the entry of the first list comes first.
spec fn merged(a: Seq<KeyedV>, b: Seq<KeyedV>) -> Seq<KeyedV>
    decreases a.len() + b.len(),
{
    if a.len() == 0 {
        b
    } else if b.len() > 0 && sorts_before(b[0], a[0]) {
        seq![b[0]] + merged(a, b.skip(1))
    } else {
        seq![a[0]] + merged(a.skip(1), b)
    }
}

proof fn lemma_bytes_order(a: Seq<u8>, b: Seq<u8>, c: Seq<u8>)
    ensures
        bytes_before(a, b) && bytes_before(b, c) ==> bytes_before(a, c),
        !bytes_before(a, b) && !bytes_before(b, c) ==> !bytes_before(a, c),
        !bytes_before(a, a),
    decreases a.len() + b.len() + c.len(),
{
    if a.len() > 0 && b.len() > 0 && c.len() > 0 {
        lemma_bytes_order(a.drop_first(), b.drop_first(), c.drop_first());
    } else if a.len() > 0 {
        lemma_bytes_order(a.drop_first(), Seq::empty(), Seq::empty());
    }
}

/// Sorting before is transitive, and so is not sorting before.
pub(crate) proof fn lemma_order(a: KeyedV, b: KeyedV, c: KeyedV)
    ensures
        sorts_before(a, b) && sorts_before(b, c) ==> sorts_before(a, c),
        !sorts_before(a, b) && !sorts_before(b, c) ==> !sorts_before(a, c),
        !sorts_before(a, a),
{
    lemma_bytes_order(a.bytes, b.bytes, c.bytes);
}

proof fn lemma_place_merged(a: Seq<KeyedV>, b: Seq<KeyedV>, x: KeyedV)
    ensures
        place(merged(a, b), x) == merged(place(a, x), b),
    decreases a.len() + b.len(),
{
    if a.len() == 0 {
        let one = place(a, x);
        assert(one =~= seq![x]);
        if b.len() > 0 && sorts_before(b[0], x) {
            lemma_place_merged(a, b.skip(1), x);
        } else {
            assert(merged(one.skip(1), b) == b);
            assert(merged(one, b) =~= seq![x] + b);
        }
    } else if b.len() > 0 && sorts_before(b[0], a[0]) {
        let rest = merged(a, b.skip(1));
        let all = merged(a, b);
        assert(all.skip(1) =~= rest);
        lemma_place_merged(a, b.skip(1), x);
        lemma_order(b[0], a[0], x);
        let placed = place(a, x);
        if sorts_before(b[0], x) {
            assert(placed[0] == a[0] || placed[0] == x);
            assert(sorts_before(b[0], placed[0]));
        } else {
            assert(placed =~= seq![x] + a);
            assert(placed.skip(1) =~= a);
        }
    } else {
        let rest = merged(a.skip(1), b);
        let all = merged(a, b);
        assert(all.skip(1) =~= rest);
        lemma_place_merged(a.skip(1), b, x);
        let placed = place(a, x);
        if sorts_before(a[0], x) {
            assert(placed.skip(1) =~= place(a.skip(1), x));
            assert(placed[0] == a[0]);
        } else {
            assert(placed =~= seq![x] + a);
            assert(placed.skip(1) =~= a);
            if b.len() > 0 {
                lemma_order(b[0], a[0], x);
            }
        }
    }
}

/// Sorting two parts and merging them sorts the whole.
proof fn lemma_sorted_parts(a: Seq<KeyedV>, b: Seq<KeyedV>)
    ensures
        sorted(a + b) == merged(sorted(a), sorted(b)),
    decreases a.len(),
{
    if a.len() == 0 {
        assert(a + b =~= b);
    } else {
        assert((a + b).skip(1) =~= a.skip(1) + b);
        lemma_sorted_parts(a.skip(1), b);
        lemma_place_merged(sorted(a.skip(1)), sorted(b), a[0]);
    }
}

/// The entries of a list from the last to the first.
fn reversed_keyed(list: Vec<Keyed>) -> (r: Vec<Keyed>)
    ensures
        keyed_view(r@) == keyed_view(list@).reverse(),
{
    let mut list = list;
    let ghost all = keyed_view(list@);
    let mut r: Vec<Keyed> = Vec::new();
    while list.len() > 0
        invariant
            list@.len() <= all.len(),
            keyed_view(list@) == all.take(list@.len() as int),
            keyed_view(r@) == all.skip(list@.len() as int).reverse(),
        decreases list@.len(),
    {
        let ghost n = list@.len() as int;
        let ghost old_r = r@;
        assert(keyed_view(list@)[n - 1] == all[n - 1]);
        if let Some(entry) = list.pop() {
            assert(keyed_view(list@) =~= all.take(n - 1)) by {
                assert forall|j: int| 0 <= j < n - 1 implies keyed_view(list@)[j] == all.take(
                    n - 1,
                )[j] by {
                    assert(all.take(n)[j] == all[j]);
                }
            }
            r.push(entry);
            assert(keyed_view(r@) =~= keyed_view(old_r).push(entry@));
            assert(all.skip(n - 1).reverse() =~= all.skip(n).reverse().push(all[n - 1]));
        }
    }
    assert(all.skip(0) =~= all);
    r
}

/// Merges two sorted lists.
fn merge(a: Vec<Keyed>, b: Vec<Keyed>) -> (r: Vec<Keyed>)
    ensures
        keyed_view(r@) == merged(keyed_view(a@), keyed_view(b@)),
{
    let ghost whole = merged(keyed_view(a@), keyed_view(b@));
    let mut left = reversed_keyed(a);
    let mut right = reversed_keyed(b);
    let mut r: Vec<Keyed> = Vec::new();
    assert(keyed_view(left@).reverse() =~= keyed_view(a@));
    assert(keyed_view(right@).reverse() =~= keyed_view(b@));
    assert(keyed_view(r@) + whole =~= whole);
    while left.len() > 0 || right.len() > 0
        invariant
            keyed_view(r@) + merged(keyed_view(left@).reverse(), keyed_view(right@).reverse())
                == whole,
        decreases left@.len() + right@.len(),
    {
        let ghost x = keyed_view(left@).reverse();
        let ghost y = keyed_view(right@).reverse();
        let ghost done = keyed_view(r@);
        let nl = left.len();
        let nr = right.len();
        let from_right = nr > 0 && (nl == 0 || before(&right[nr - 1], &left[nl - 1]));
        proof {
            if nl > 0 {
                assert(x[0] == left@[nl - 1]@);
            }
            if nr > 0 {
                assert(y[0] == right@[nr - 1]@);
            }
        }
        if from_right {
            if let Some(entry) = right.pop() {
                proof {
                    assert(keyed_view(right@).reverse() =~= y.skip(1));
                    assert(merged(x, y) == seq![y[0]] + merged(x, y.skip(1))) by {
                        if nl == 0 {
                            assert(seq![y[0]] + y.skip(1) =~= y);
                        }
                    }
                }
                r.push(entry);
                assert(keyed_view(r@) =~= done.push(y[0]));
                assert(done + (seq![y[0]] + merged(x, y.skip(1))) =~= done.push(y[0]) + merged(
                    x,
                    y.skip(1),
                ));
            }
        } else {
            if let Some(entry) = left.pop() {
                assert(keyed_view(left@).reverse() =~= x.skip(1));
                r.push(entry);
                assert(keyed_view(r@) =~= done.push(x[0]));
                assert(done + (seq![x[0]] + merged(x.skip(1), y)) =~= done.push(x[0]) + merged(
                    x.skip(1),
                    y,
                ));
            }
        }
    }
    assert(keyed_view(left@).reverse() =~= Seq::empty());
    assert(keyed_view(right@).reverse() =~= Seq::empty());
    assert(keyed_view(r@) + Seq::<KeyedV>::empty() =~= keyed_view(r@));
    r
}

/// Sorts a list by merging its sorted halves.
fn merge_sort(entries: Vec<Keyed>) -> (r: Vec<Keyed>)
    ensures
        keyed_view(r@) == sorted(keyed_view(entries@)),
    decreases entries@.len(),
{
    let ghost all = keyed_view(entries@);
    let n = entries.len();
    if n <= 1 {
        proof {
            if n == 1 {
                assert(sorted(all.skip(1)) =~= Seq::empty());
                assert(sorted(all) =~= all);
            } else {
                assert(sorted(all) =~= all);
            }
        }
        return entries;
    }
    let mut head = entries;
    let tail = head.split_off(n / 2);
    let ghost a = keyed_view(head@);
    let ghost b = keyed_view(tail@);
    proof {
        assert(all =~= a + b);
        lemma_sorted_parts(a, b);
    }
    let left = merge_sort(head);
    let right = merge_sort(tail);
    merge(left, right)
}

/// The numeral that the text of an entry is.
fn item_numeral(item: &Item) -> (r: Option<String>)
    ensures
        match r {
            Some(s) => numeral_of(item@) == Some(s@),
            None => numeral_of(item@) is None,
        },
{
    let bytes = item_text(item);
    match utf8_str(bytes.as_slice()) {
        Some(s) => {
            let chars = chars_of(s);
            let text = trim(chars.as_slice());
            if numeral_chars(text.as_slice()) {
                Some(string_of(text.as_slice()))
            } else {
                None
            }
        },
        None => None,
    }
}

/// The numerals among the texts of the entries.
fn item_numerals(items: &Vec<Item>) -> (r: Vec<String>)
    ensures
        texts_view(r@) == numerals(items_view(items@)),
{
    let ghost all = items_view(items@);
    let mut r: Vec<String> = Vec::new();
    assert(texts_view(r@) =~= numerals(all.take(0)));
    for i in 0..items.len()
        invariant
            all == items_view(items@),
            texts_view(r@) == numerals(all.take(i as int)),
    {
        let ghost before = r@;
        assert(all.take(i + 1).drop_last() =~= all.take(i as int));
        assert(all.take(i + 1).last() == items@[i as int]@);
        if let Some(text) = item_numeral(&items[i]) {
            r.push(text);
            assert(texts_view(r@) =~= texts_view(before).push(text@));
        }
    }
    assert(all.take(items@.len() as int) =~= all);
    r
}

/// The numerals whose numbers are not known.
fn unknown_numerals(texts: Vec<String>, known: &Readings) -> (r: Vec<String>)
    ensures
        texts_view(r@) == unknown_among(texts_view(texts@), known@),
{
    let ghost all = texts_view(texts@);
    let mut r: Vec<String> = Vec::new();
    assert(texts_view(r@) =~= unknown_among(all.take(0), known@));
    for i in 0..texts.len()
        invariant
            all == texts_view(texts@),
            texts_view(r@) == unknown_among(all.take(i as int), known@),
    {
        let ghost before = r@;
        assert(all.take(i + 1).drop_last() =~= all.take(i as int));
        assert(all.take(i + 1).last() == texts@[i as int]@);
        if known.number(texts[i].as_str()).is_none() {
            r.push(crate::text::copy_text(texts[i].as_str()));
            assert(texts_view(r@) =~= texts_view(before).push(texts@[i as int]@));
        }
    }
    assert(all.take(texts@.len() as int) =~= all);
    r
}

/// Takes the entries out of a list.
fn take_items(items: &mut Vec<Item>) -> (r: Vec<Item>)
    ensures
        r@ == old(items)@,
        final(items)@.len() == 0,
{
    let mut r: Vec<Item> = Vec::new();
    std::mem::swap(&mut r, items);
    r
}

/// The entries of a list from the last to the first.
fn reversed(list: Vec<Item>) -> (r: Vec<Item>)
    ensures
        items_view(r@) == items_view(list@).reverse(),
        r@ == list@.reverse(),
{
    let mut list = list;
    let ghost all = list@;
    let mut r: Vec<Item> = Vec::new();
    while list.len() > 0
        invariant
            list@.len() <= all.len(),
            list@ == all.take(list@.len() as int),
            r@ == all.skip(list@.len() as int).reverse(),
        decreases list@.len(),
    {
        let ghost n = list@.len() as int;
        assert(list@[n - 1] == all[n - 1]);
        if let Some(entry) = list.pop() {
            assert(list@ =~= all.take(n - 1));
            r.push(entry);
            assert(all.skip(n - 1).reverse() =~= all.skip(n).reverse().push(all[n - 1]));
        }
    }
    assert(all.skip(0) =~= all);
    assert(items_view(r@) =~= items_view(all).reverse());
    r
}

/// What an entry is sorted by: its number where there is a place for
/// not-a-number, and else its text.
spec fn key_of(item: ItemV, nan: Option<i64>, known: ReadingsV) -> KeyedV {
    match nan {
        Some(place) => by_number(item, known, place as int),
        None => by_text(item),
    }
}

spec fn keys_of(items: Seq<ItemV>, nan: Option<i64>, known: ReadingsV) -> Seq<KeyedV> {
    Seq::new(items.len(), |i: int| key_of(items[i], nan, known))
}

/// Finds where not-a-number stands among numerals.
fn place_of_nan(texts: &Vec<String>, known: &Readings) -> (r: i64)
    ensures
        r == nan_place(texts_view(texts@), known@),
{
    let ghost all = texts_view(texts@);
    assert(all.skip(0) =~= all);
    for i in 0..texts.len()
        invariant
            all == texts_view(texts@),
            nan_place(all, known@) == nan_place(all.skip(i as int), known@),
    {
        assert(all.skip(i as int)[0] == texts@[i as int]@);
        assert(all.skip(i as int).skip(1) =~= all.skip(i + 1));
        if let Some(Number::Value(n)) = known.number(texts[i].as_str()) {
            return n;
        }
    }
    0
}

/// An entry with what it is sorted by.
fn with_key(item: Item, nan: Option<i64>, known: &Readings) -> (r: Keyed)
    ensures
        r@ == key_of(item@, nan, known@),
{
    let number: Option<i64> = match nan {
        Some(place) => match item_numeral(&item) {
            Some(text) => match known.number(text.as_str()) {
                Some(Number::Value(v)) => Some(v),
                Some(Number::Nan) => Some(place),
                None => None,
            },
            None => None,
        },
        None => None,
    };
    let bytes = item_text(&item);
    Keyed { number, bytes, item }
}

/// The entries with what they are sorted by.
fn with_keys(items: Vec<Item>, nan: Option<i64>, known: &Readings) -> (r: Vec<Keyed>)
    ensures
        keyed_view(r@) == keys_of(items_view(items@), nan, known@),
{
    let ghost all = items@;
    let ghost keys = keys_of(items_view(all), nan, known@);
    let mut rest = items;
    let mut entries: Vec<Keyed> = Vec::new();
    while rest.len() > 0
        invariant
            keys == keys_of(items_view(all), nan, known@),
            rest@.len() <= all.len(),
            rest@ == all.take(rest@.len() as int),
            keyed_view(entries@) == keys.skip(rest@.len() as int).reverse(),
        decreases rest@.len(),
    {
        let ghost n = rest@.len() as int;
        let ghost before = entries@;
        assert(rest@[n - 1] == all[n - 1]);
        if let Some(item) = rest.pop() {
            assert(rest@ =~= all.take(n - 1));
            entries.push(with_key(item, nan, known));
            assert(keyed_view(entries@) =~= keyed_view(before).push(keys[n - 1]));
            assert(keys.skip(n - 1).reverse() =~= keys.skip(n).reverse().push(keys[n - 1]));
        }
    }
    assert(keys.skip(0) =~= keys);
    let r = reversed_keyed(entries);
    assert(keyed_view(r@) =~= keys);
    r
}

/// The entries without what they were sorted by.
fn without_keys(entries: Vec<Keyed>) -> (r: Vec<Item>)
    ensures
        items_view(r@) == keyed_items(keyed_view(entries@)),
{
    let ghost all = entries@;
    let ghost out = keyed_items(keyed_view(all));
    let mut rest = entries;
    let mut items: Vec<Item> = Vec::new();
    while rest.len() > 0
        invariant
            out == keyed_items(keyed_view(all)),
            rest@.len() <= all.len(),
            rest@ == all.take(rest@.len() as int),
            items_view(items@) == out.skip(rest@.len() as int).reverse(),
        decreases rest@.len(),
    {
        let ghost n = rest@.len() as int;
        let ghost before = items@;
        assert(rest@[n - 1] == all[n - 1]);
        if let Some(entry) = rest.pop() {
            assert(rest@ =~= all.take(n - 1));
            items.push(entry.item);
            assert(items_view(items@) =~= items_view(before).push(out[n - 1]));
            assert(out.skip(n - 1).reverse() =~= out.skip(n).reverse().push(out[n - 1]));
        }
    }
    assert(out.skip(0) =~= out);
    let r = reversed(items);
    assert(items_view(r@) =~= out);
    r
}

/// Sorts the entries by number where there is a place for not-a-number, and
/// else by text.
fn sort_items(items: &mut Vec<Item>, nan: Option<i64>, known: &Readings)
    ensures
        items_view(final(items)@) == keyed_items(
            sorted(keys_of(items_view(old(items)@), nan, known@)),
        ),
{
    let taken = take_items(items);
    let entries = merge_sort(with_keys(taken, nan, known));
    let mut out = without_keys(entries);
    std::mem::swap(items, &mut out);
}

/// Whether one of the texts is `text`.
fn seen_text(texts: &Vec<Vec<u8>>, text: &[u8]) -> (r: bool)
    ensures
        r == exists|i: int| 0 <= i < texts@.len() && (#[trigger] texts@[i])@ == text@,
{
    for i in 0..texts.len()
        invariant
            forall|j: int| 0 <= j < i ==> (#[trigger] texts@[j])@ != text@,
    {
        if same_bytes(texts[i].as_slice(), text) {
            return true;
        }
    }
    false
}

/// Drops the entries whose text an earlier one has.
fn unique_items(items: &mut Vec<Item>)
    ensures
        items_view(final(items)@) == distinct(items_view(old(items)@)),
{
    let ghost all = items@;
    let ghost view = items_view(all);
    let taken = take_items(items);
    let mut rest = reversed(taken);
    let mut texts: Vec<Vec<u8>> = Vec::new();
    let ghost total = all.len() as int;
    assert(items_view(items@) =~= distinct(view.take(0)));
    assert(rest@ == all.reverse());
    while rest.len() > 0
        invariant
            view == items_view(all),
            total == all.len(),
            rest@.len() <= total,
            rest@ == all.skip(total - rest@.len()).reverse(),
            items_view(items@) == distinct(view.take(total - rest@.len())),
            texts@.len() == items@.len(),
            forall|i: int| 0 <= i < texts@.len() ==> (#[trigger] texts@[i])@ == text_of(items@[i]@),
        decreases rest@.len(),
    {
        let ghost n = rest@.len() as int;
        let ghost k = total - n;
        let ghost before = items@;
        let ghost old_texts = texts@;
        assert(rest@[n - 1] == all[k]);
        if let Some(item) = rest.pop() {
            assert(rest@ =~= all.skip(k + 1).reverse());
            let text = item_text(&item);
            assert(view.take(k + 1).drop_last() =~= view.take(k));
            assert(view.take(k + 1).last() == item@);
            if !seen_text(&texts, text.as_slice()) {
                proof {
                    assert forall|i: int| 0 <= i < items_view(before).len() implies text_of(
                        #[trigger] items_view(before)[i],
                    ) != text@ by {
                        assert(old_texts[i]@ == text_of(before[i]@));
                    }
                }
                items.push(item);
                texts.push(text);
                assert(items_view(items@) =~= items_view(before).push(item@));
            } else {
                proof {
                    let i = choose|i: int|
                        0 <= i < texts@.len() && (#[trigger] texts@[i])@ == text@;
                    assert(items_view(before)[i] == before[i]@);
                    assert(has_text(items_view(before), text_of(item@)));
                }
            }
        }
    }
    assert(view.take(total) =~= view);
}

/// What a modifier asks for is not known yet.
pub open spec fn asks_unknown(error: ErrorV, known: ReadingsV) -> bool {
    match error {
        ErrorV::Ambiguous(_) => true,
        ErrorV::NumbersNeeded(texts) => texts.len() > 0 && all_unknown(texts, known),
        ErrorV::TotalNeeded(modifier, texts) => !known.totals.contains_key((modifier, texts)),
    }
}

proof fn lemma_numerals(items: Seq<ItemV>)
    ensures
        forall|i: int| 0 <= i < numerals(items).len() ==> is_numeral(#[trigger] numerals(items)[i]),
    decreases items.len(),
{
    if items.len() > 0 {
        let head = numerals(items.drop_last());
        lemma_numerals(items.drop_last());
        assert forall|i: int| 0 <= i < numerals(items).len() implies is_numeral(
            #[trigger] numerals(items)[i],
        ) by {
            if i < head.len() {
                assert(numerals(items)[i] == head[i]);
            }
        }
    }
}

proof fn lemma_unknown_among(texts: Seq<Seq<char>>, known: ReadingsV)
    requires
        forall|i: int| 0 <= i < texts.len() ==> is_numeral(#[trigger] texts[i]),
    ensures
        all_unknown(unknown_among(texts, known), known),
    decreases texts.len(),
{
    if texts.len() > 0 {
        let head = texts.drop_last();
        assert forall|i: int| 0 <= i < head.len() implies is_numeral(#[trigger] head[i]) by {
            assert(head[i] == texts[i]);
        }
        lemma_unknown_among(head, known);
        assert(is_numeral(texts[texts.len() - 1]));
    }
}

/// Modifiers ask only for what is not known.
pub proof fn law_modifiers_ask_unknown(
    modifiers: Seq<Modifier>,
    items: Seq<ItemV>,
    known: ReadingsV,
)
    ensures
        all_modified(modifiers, items, known) matches Err(error) ==> asks_unknown(error, known),
    decreases modifiers.len(),
{
    if modifiers.len() > 0 {
        lemma_numerals(items);
        lemma_unknown_among(numerals(items), known);
        if let Ok(next) = modified(modifiers[0], items, known) {
            law_modifiers_ask_unknown(modifiers.skip(1), next, known);
        }
    }
}

/// Applies one modifier.
fn apply_modifier(modifier: Modifier, items: &mut Vec<Item>, known: &Readings) -> (r: Result<
    (),
    EngineError,
>)
    ensures
        match modified(modifier, items_view(old(items)@), known@) {
            Ok(next) => r is Ok && items_view(final(items)@) == next,
            Err(error) => r matches Err(e) && e@ == error,
        },
{
    let ghost view = items_view(items@);
    match modifier {
        Modifier::Reverse => {
            let taken = take_items(items);
            let mut turned = reversed(taken);
            std::mem::swap(items, &mut turned);
        },
        Modifier::First => {
            items.truncate(1);
            assert(items_view(items@) =~= if view.len() > 1 {
                seq![view[0]]
            } else {
                view
            });
        },
        Modifier::Last => {
            if items.len() > 1 {
                if let Some(last) = items.pop() {
                    items.clear();
                    items.push(last);
                    assert(items_view(items@) =~= seq![view.last()]);
                }
            }
        },
        Modifier::Count => {
            let n = items.len();
            items.clear();
            items.push(Item::Scalar(decimal_bytes(n)));
            assert(items_view(items@) =~= seq![ItemV::Scalar(decimal(view.len()))]);
        },
        Modifier::Sort => {
            sort_items(items, None, known);
            assert(keys_of(view, None, known@) =~= Seq::new(
                view.len(),
                |i: int| by_text(view[i]),
            ));
        },
        Modifier::SortNumeric => {
            let texts = item_numerals(items);
            let nan = place_of_nan(&texts, known);
            let unknown = unknown_numerals(texts, known);
            assert(texts_view(unknown@).len() == unknown@.len());
            if unknown.len() > 0 {
                return Err(EngineError::NumbersNeeded { texts: unknown });
            }
            sort_items(items, Some(nan), known);
            assert(keys_of(view, Some(nan), known@) =~= Seq::new(
                view.len(),
                |i: int| by_number(view[i], known@, nan as int),
            ));
        },
        Modifier::Unique => {
            unique_items(items);
        },
        Modifier::Flatten => {},
        Modifier::Tostr => {},
        _ => {
            let texts = item_numerals(items);
            let total = match known.total(modifier, &texts) {
                Some(total) => copy_bytes(total.as_bytes()),
                None => {
                    return Err(EngineError::TotalNeeded { modifier, texts });
                },
            };
            items.clear();
            items.push(Item::Scalar(total));
            assert(items_view(items@) =~= seq![ItemV::Scalar(total@)]);
        },
    }
    Ok(())
}

/// Applies modifiers from left to right.
pub fn apply_modifiers(modifiers: &[Modifier], items: &mut Vec<Item>, known: &Readings) -> (r:
    Result<(), EngineError>)
    ensures
        match all_modified(modifiers@, items_view(old(items)@), known@) {
            Ok(next) => r is Ok && items_view(final(items)@) == next,
            Err(error) => r matches Err(e) && e@ == error,
        },
{
    let ghost whole = all_modified(modifiers@, items_view(items@), known@);
    assert(modifiers@.skip(0) =~= modifiers@);
    for i in 0..modifiers.len()
        invariant
            whole == all_modified(modifiers@, items_view(old(items)@), known@),
            whole == all_modified(modifiers@.skip(i as int), items_view(items@), known@),
    {
        assert(modifiers@.skip(i as int).skip(1) =~= modifiers@.skip(i + 1));
        assert(modifiers@.skip(i as int)[0] == modifiers@[i as int]);
        match apply_modifier(modifiers[i], items, known) {
            Ok(()) => {},
            Err(error) => {
                return Err(error);
            },
        }
    }
    Ok(())
}

} // verus!
