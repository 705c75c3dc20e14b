//! Result entries.

use std::collections::HashSet;

use vstd::prelude::*;

use crate::number::{is_numeral, texts_view, ReadingsV};
use crate::semantics::{
    element_text, entries, first_tag, firsts, found_at, once, scope_end, scope_text, text_of,
    FoundV, ItemV, SinkV,
};
use crate::text::{append_bytes, copy_bytes};
use crate::xml::{append_text, doc_of, Scanner, XmlEvent};

verus! {

/// A single result entry.
#[derive(Debug, Clone)]
pub enum Item {
    /// A matched element: its full `<e ...>...</e>` bytes (or `<e/>`), which
    /// can be queried again.
    Element(Vec<u8>),
    /// A matched element by its place in the queried bytes: `start..end`.
    ElementRef { start: u32, end: u32 },
    /// The value of an attribute, explicit text, a count or an aggregate.
    Scalar(Vec<u8>),
    /// The text content of a matched element.
    Text(Vec<u8>),
}

impl View for Item {
    type V = ItemV;

    open spec fn view(&self) -> ItemV {
        match self {
            Item::Element(bytes) => ItemV::Element(bytes@),
            Item::ElementRef { start, end } => ItemV::ElementRef { start: *start, end: *end },
            Item::Scalar(bytes) => ItemV::Scalar(bytes@),
            Item::Text(bytes) => ItemV::Text(bytes@),
        }
    }
}

/// The contents of a list of result entries.
pub open spec fn items_view(items: Seq<Item>) -> Seq<ItemV> {
    Seq::new(items.len(), |i: int| items[i]@)
}

/// A result entry with the place it has been found at.
pub struct Found {
    pub place: usize,
    pub item: Item,
}

impl View for Found {
    type V = FoundV;

    open spec fn view(&self) -> FoundV {
        FoundV { place: self.place as nat, item: self.item@ }
    }
}

/// The contents of a list of result entries with their places.
pub open spec fn found_view(found: Seq<Found>) -> Seq<FoundV> {
    Seq::new(found.len(), |i: int| found[i]@)
}

/// What a pass collects.
pub struct Sink {
    pub items: Vec<Found>,
    pub asked: Vec<String>,
}

impl View for Sink {
    type V = SinkV;

    open spec fn view(&self) -> SinkV {
        SinkV { items: found_view(self.items@), asked: texts_view(self.asked@) }
    }
}

/// Every text that is asked for is a numeral whose number is not known.
pub open spec fn all_unknown(asked: Seq<Seq<char>>, known: ReadingsV) -> bool {
    forall|i: int|
        0 <= i < asked.len() ==> is_numeral(#[trigger] asked[i]) && !known.numbers.contains_key(
            asked[i],
        )
}

impl Sink {
    pub(crate) fn new() -> (s: Self)
        ensures
            s@.items.len() == 0,
            s@.asked.len() == 0,
            s@ == crate::semantics::nothing(),
    {
        let s = Sink { items: Vec::new(), asked: Vec::new() };
        assert(s@.items =~= Seq::empty());
        assert(s@.asked =~= Seq::empty());
        s
    }

    /// Adds a result entry.
    pub(crate) fn push(&mut self, place: usize, item: Item)
        ensures
            final(self)@ == old(self)@.push(place as nat, item@),
    {
        self.items.push(Found { place, item });
        assert(self@.items =~= old(self)@.items.push(FoundV { place: place as nat, item: item@ }));
        assert(self@.asked == old(self)@.asked);
    }
}

/// The result entries of a pass: of those that have been found at one place,
/// the first.
pub(crate) fn collected(found: Vec<Found>) -> (items: Vec<Item>)
    ensures
        items_view(items@) == once(found_view(found@)),
{
    broadcast use vstd::std_specs::hash::group_hash_axioms;

    let ghost all = found_view(found@);
    let mut found = found;
    let mut seen: HashSet<usize> = HashSet::new();
    let mut items: Vec<Item> = Vec::new();
    let len = found.len();
    let mut i: usize = 0;
    assert(items_view(items@) =~= entries(firsts(all.take(0))));
    while i < len
        invariant
            i <= len == found@.len() == all.len(),
            forall|k: int| i <= k < len ==> #[trigger] found@[k]@ == all[k],
            items_view(items@) == entries(firsts(all.take(i as int))),
            forall|place: usize|
                #[trigger] seen@.contains(place) == found_at(
                    firsts(all.take(i as int)),
                    place as nat,
                ),
        decreases len - i,
    {
        broadcast use vstd::std_specs::hash::group_hash_axioms;

        let ghost before = firsts(all.take(i as int));
        let ghost now = all.take(i + 1);
        let ghost items0 = items_view(items@);
        let ghost seen0 = seen@;
        let place = found[i].place;
        proof {
            assert(found@[i as int]@ == all[i as int]);
            assert(now.drop_last() =~= all.take(i as int));
            assert(now.last() == all[i as int]);
        }
        if seen.insert(place) {
            let mut item = Item::Scalar(Vec::new());
            std::mem::swap(&mut item, &mut found[i].item);
            items.push(item);
            proof {
                assert(firsts(now) == before.push(all[i as int]));
                assert(item@ == all[i as int].item);
                assert(items_view(items@) =~= items0.push(item@));
                assert(items_view(items@) =~= entries(firsts(now)));
            }
        }
        proof {
            let kept = firsts(now);
            assert forall|other: usize| #[trigger] seen@.contains(other) == found_at(
                kept,
                other as nat,
            ) by {
                assert(seen@ == seen0.insert(place));
                if found_at(before, other as nat) {
                    let k = choose|k: int|
                        0 <= k < before.len() && (#[trigger] before[k]).place == other as nat;
                    assert(kept[k] == before[k]);
                }
                if other == place && kept.len() > before.len() {
                    assert(kept[before.len() as int].place == place as nat);
                }
                if found_at(kept, other as nat) && other != place {
                    let k = choose|k: int|
                        0 <= k < kept.len() && (#[trigger] kept[k]).place == other as nat;
                    assert(kept[k] == before[k]);
                }
            }
        }
        i = i + 1;
    }
    assert(all.take(len as int) =~= all);
    items
}

/// Reads the text content of the element whose start tag has just been read,
/// up to the end of the element.
pub(crate) fn read_text_in_scope(scanner: &mut Scanner) -> (out: Vec<u8>)
    requires
        old(scanner).wf(),
        old(scanner).index() > 0,
    ensures
        final(scanner).wf(),
        final(scanner).doc() == old(scanner).doc(),
        final(scanner).index() == scope_end(old(scanner).events(), old(scanner).index(), 1),
        old(scanner).index() <= final(scanner).index() <= old(scanner).events().len(),
        out@ == scope_text(old(scanner).events(), old(scanner).index(), 1),
{
    let ghost events = scanner.events();
    let ghost start = scanner.index();
    let mut out: Vec<u8> = Vec::new();
    let mut depth: usize = 1;
    proof {
        scanner.lemma_wf();
        assert(out@ + scope_text(events, start, 1) =~= scope_text(events, start, 1));
    }
    loop
        invariant
            scanner.wf(),
            scanner.doc() == old(scanner).doc(),
            events == scanner.events(),
            start <= scanner.index() <= events.len() <= usize::MAX,
            1 <= depth <= scanner.index(),
            scope_text(events, start, 1) == out@ + scope_text(
                events,
                scanner.index(),
                depth as nat,
            ),
            scope_end(events, start, 1) == scope_end(events, scanner.index(), depth as nat),
            start == old(scanner).index(),
        decreases events.len() - scanner.index(),
    {
        let ghost before = out@;
        let ghost i = scanner.index();
        match scanner.next() {
            XmlEvent::Start(_) => {
                depth = depth + 1;
            },
            XmlEvent::End(_) => {
                depth = depth - 1;
                if depth == 0 {
                    assert(out@ + Seq::<u8>::empty() =~= out@);
                    return out;
                }
            },
            XmlEvent::Text(raw) => {
                append_text(&mut out, raw.as_slice());
                assert(before + (crate::xml::text_content(raw@) + scope_text(
                    events,
                    i + 1,
                    depth as nat,
                )) =~= out@ + scope_text(events, i + 1, depth as nat));
            },
            XmlEvent::CData(raw) => {
                append_bytes(&mut out, raw.as_slice());
                assert(before + (raw@ + scope_text(events, i + 1, depth as nat)) =~= out@
                    + scope_text(events, i + 1, depth as nat));
            },
            XmlEvent::Eof => {
                assert(out@ + Seq::<u8>::empty() =~= out@);
                return out;
            },
            _ => {},
        }
    }
}

/// The text content of the first element of a fragment.
pub fn extract_element_text(fragment: &[u8]) -> (out: Vec<u8>)
    ensures
        out@ == element_text(fragment@),
{
    let mut scanner = Scanner::new(fragment, true);
    let ghost events = doc_of(fragment@).events;
    proof {
        scanner.lemma_wf();
    }
    loop
        invariant
            scanner.wf(),
            scanner.doc() == doc_of(fragment@),
            events == scanner.events(),
            0 <= scanner.index() <= events.len(),
            first_tag(events, 0) == first_tag(events, scanner.index()),
        decreases events.len() - scanner.index(),
    {
        match scanner.next() {
            XmlEvent::Start(_) => {
                return read_text_in_scope(&mut scanner);
            },
            XmlEvent::Empty(_) => {
                return Vec::new();
            },
            XmlEvent::Eof => {
                return Vec::new();
            },
            _ => {},
        }
    }
}

/// The text of a result entry: text content for elements, and the bytes
/// themselves for anything else. The bytes of an [`Item::ElementRef`] are with
/// the caller, so that it has no text of its own.
pub fn item_text(item: &Item) -> (out: Vec<u8>)
    ensures
        out@ == text_of(item@),
{
    match item {
        Item::Scalar(bytes) => copy_bytes(bytes.as_slice()),
        Item::Text(bytes) => copy_bytes(bytes.as_slice()),
        Item::Element(fragment) => extract_element_text(fragment.as_slice()),
        Item::ElementRef { .. } => Vec::new(),
    }
}

} // verus!
