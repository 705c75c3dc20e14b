//! Results as values: what a query has found, seen as nothing, a scalar, a
//! dictionary or a list.

use vstd::prelude::*;
use vstd::utf8::{decode_utf8, valid_utf8};

use crate::item::extract_element_text;
use crate::number::{i64_value, is_numeral, numeral_chars, parse_i64, texts_view};
use crate::semantics::{after, element_text};
use crate::text::{
    chars_of, copy_bytes, copy_text, push_text, same_bytes, same_text, string_of, text_or_empty,
    trim, trimmed, utf8_or_empty, utf8_str,
};
use crate::xml::{pos_at, xml_events, DocV, EventAt, EventV, Scanner, XmlEvent};

verus! {

/// One thing that a result holds.
pub enum Held<'a> {
    /// A whole document, whose paths start at its top.
    Document(&'a [u8]),
    /// A captured element, whose paths start inside it.
    Fragment(&'a [u8]),
    /// A value without anything inside.
    Scalar(&'a [u8]),
}

/// The content of a [`Held`].
pub enum HeldV {
    Document(Seq<u8>),
    Fragment(Seq<u8>),
    Scalar(Seq<u8>),
}

impl<'a> View for Held<'a> {
    type V = HeldV;

    open spec fn view(&self) -> HeldV {
        match self {
            Held::Document(bytes) => HeldV::Document(bytes@),
            Held::Fragment(bytes) => HeldV::Fragment(bytes@),
            Held::Scalar(bytes) => HeldV::Scalar(bytes@),
        }
    }
}

/// The contents of a list of held things.
pub open spec fn held_view(items: Seq<Held>) -> Seq<HeldV> {
    Seq::new(items.len(), |i: int| items[i]@)
}

impl HeldV {
    /// The bytes that are held.
    pub open spec fn bytes(self) -> Seq<u8> {
        match self {
            HeldV::Document(bytes) => bytes,
            HeldV::Fragment(bytes) => bytes,
            HeldV::Scalar(bytes) => bytes,
        }
    }

    /// The text: the text content of an element, or the scalar itself.
    pub open spec fn text(self) -> Seq<u8> {
        match self {
            HeldV::Scalar(bytes) => bytes,
            _ => element_text(self.bytes()),
        }
    }

    /// Whether there are elements inside.
    pub open spec fn is_dict(self) -> bool {
        !(self is Scalar) && has_child(lenient(self.bytes()).events, 0, false)
    }
}

/// A document that is read without checking end tags against start tags.
pub open spec fn lenient(bytes: Seq<u8>) -> DocV {
    DocV { bytes, events: xml_events(bytes, false), base: 0 }
}

/// Whether an element has a child element, from the event `i` on. `entered`
/// tells whether its own start tag has been read.
pub open spec fn has_child(events: Seq<EventAt>, i: int, entered: bool) -> bool
    decreases events.len() - i,
{
    if i < 0 || i >= events.len() {
        false
    } else {
        match events[i].event {
            EventV::Start(_) => entered || has_child(events, i + 1, true),
            EventV::Empty(_) => entered,
            EventV::End(_) => false,
            _ => has_child(events, i + 1, entered),
        }
    }
}

/// A child element: its name, and the bytes of the parent that it covers.
pub struct SpanV {
    pub name: Seq<u8>,
    pub start: nat,
    pub end: nat,
}

/// The child elements of an element, from the event `i` on.
pub open spec fn children(d: DocV, i: int, entered: bool) -> Seq<SpanV>
    decreases d.events.len() - i,
{
    if i < 0 || i >= d.events.len() {
        Seq::empty()
    } else {
        match d.events[i].event {
            EventV::Start(tag) => if !entered {
                children(d, i + 1, true)
            } else {
                let j = after(d.events, i, tag);
                seq![
                    SpanV {
                        name: tag.name(),
                        start: pos_at(d.events, i),
                        end: pos_at(d.events, j),
                    },
                ] + children(d, j, true)
            },
            EventV::Empty(tag) => if !entered {
                Seq::empty()
            } else {
                seq![
                    SpanV {
                        name: tag.name(),
                        start: pos_at(d.events, i),
                        end: pos_at(d.events, i + 1),
                    },
                ] + children(d, i + 1, true)
            },
            EventV::End(_) => Seq::empty(),
            _ => children(d, i + 1, entered),
        }
    }
}

/// The child elements of the element that bytes hold.
pub open spec fn children_of(bytes: Seq<u8>) -> Seq<SpanV> {
    children(lenient(bytes), 0, false)
}

/// Tells whether an element has a child element.
pub fn element_has_child_elements(bytes: &[u8]) -> (r: bool)
    ensures
        r == has_child(lenient(bytes@).events, 0, false),
{
    let mut scanner = Scanner::new(bytes, false);
    let ghost events = lenient(bytes@).events;
    let mut entered = false;
    proof {
        scanner.lemma_wf();
    }
    loop
        invariant
            scanner.wf(),
            events == scanner.events(),
            events == lenient(bytes@).events,
            0 <= scanner.index() <= events.len(),
            has_child(events, 0, false) == has_child(events, scanner.index(), entered),
        decreases events.len() - scanner.index(),
    {
        match scanner.next() {
            XmlEvent::Start(_) => {
                if entered {
                    return true;
                }
                entered = true;
            },
            XmlEvent::Empty(_) => {
                return entered;
            },
            XmlEvent::End(_) => {
                return false;
            },
            XmlEvent::Eof => {
                return false;
            },
            _ => {},
        }
    }
}

/// A child element: its name, and the bytes `start..end` of the parent that it
/// covers.
#[derive(Debug)]
pub struct ChildSpan {
    pub name: Vec<u8>,
    pub start: usize,
    pub end: usize,
}

impl View for ChildSpan {
    type V = SpanV;

    open spec fn view(&self) -> SpanV {
        SpanV { name: self.name@, start: self.start as nat, end: self.end as nat }
    }
}

/// The contents of a list of child elements.
pub open spec fn spans_view(spans: Seq<ChildSpan>) -> Seq<SpanV> {
    Seq::new(spans.len(), |i: int| spans[i]@)
}

/// Every child element lies within its parent.
pub open spec fn spans_within(spans: Seq<ChildSpan>, len: nat) -> bool {
    forall|i: int| 0 <= i < spans.len() ==> (#[trigger] spans[i]).start <= spans[i].end <= len
}

/// Finds the child elements of an element, in document order.
pub fn collect_direct_children(bytes: &[u8]) -> (out: Vec<ChildSpan>)
    ensures
        spans_view(out@) == children_of(bytes@),
        spans_within(out@, bytes@.len()),
{
    let mut scanner = Scanner::new(bytes, false);
    let ghost d = lenient(bytes@);
    let ghost whole = children(d, 0, false);
    let mut out: Vec<ChildSpan> = Vec::new();
    let mut entered = false;
    proof {
        scanner.lemma_wf();
        assert(spans_view(out@) + whole =~= whole);
    }
    loop
        invariant
            scanner.wf(),
            scanner.doc() == d,
            d == lenient(bytes@),
            whole == children(d, 0, false),
            0 <= scanner.index() <= d.events.len(),
            spans_view(out@) + children(d, scanner.index(), entered) == whole,
            spans_within(out@, bytes@.len()),
        decreases d.events.len() - scanner.index(),
    {
        let start = scanner.position();
        let ghost i = scanner.index();
        let ghost before = out@;
        match scanner.next() {
            XmlEvent::Start(tag) => {
                if !entered {
                    entered = true;
                } else {
                    scanner.skip_element(tag.name());
                    proof {
                        scanner.lemma_wf();
                    }
                    let end = scanner.position();
                    let span = ChildSpan { name: copy_bytes(tag.name()), start, end };
                    out.push(span);
                    assert(spans_view(out@) =~= spans_view(before).push(span@));
                    assert(spans_view(before) + (seq![span@] + children(d, scanner.index(), true))
                        =~= spans_view(before).push(span@) + children(d, scanner.index(), true));
                }
            },
            XmlEvent::Empty(tag) => {
                if !entered {
                    assert(spans_view(out@) + Seq::<SpanV>::empty() =~= spans_view(out@));
                    return out;
                }
                proof {
                    scanner.lemma_wf();
                }
                let end = scanner.position();
                let span = ChildSpan { name: copy_bytes(tag.name()), start, end };
                out.push(span);
                assert(spans_view(out@) =~= spans_view(before).push(span@));
                assert(spans_view(before) + (seq![span@] + children(d, i + 1, true))
                    =~= spans_view(before).push(span@) + children(d, i + 1, true));
            },
            XmlEvent::End(_) => {
                assert(spans_view(out@) + Seq::<SpanV>::empty() =~= spans_view(out@));
                return out;
            },
            XmlEvent::Eof => {
                assert(spans_view(out@) + Seq::<SpanV>::empty() =~= spans_view(out@));
                return out;
            },
            _ => {},
        }
    }
}

/// The names of child elements, each once, in the order of first occurrence.
pub open spec fn names_once(spans: Seq<SpanV>) -> Seq<Seq<u8>>
    decreases spans.len(),
{
    if spans.len() == 0 {
        Seq::empty()
    } else {
        let head = names_once(spans.drop_last());
        if head.contains(spans.last().name) {
            head
        } else {
            head.push(spans.last().name)
        }
    }
}

/// The byte sequences of a list.
pub open spec fn bytes_view(list: Seq<Vec<u8>>) -> Seq<Seq<u8>> {
    Seq::new(list.len(), |i: int| list[i]@)
}

/// Whether a list holds a name.
fn holds_name(names: &Vec<Vec<u8>>, name: &[u8]) -> (r: bool)
    ensures
        r == bytes_view(names@).contains(name@),
{
    for i in 0..names.len()
        invariant
            forall|j: int| 0 <= j < i ==> bytes_view(names@)[j] != name@,
    {
        if same_bytes(names[i].as_slice(), name) {
            assert(bytes_view(names@)[i as int] == name@);
            return true;
        }
    }
    false
}

/// The names of child elements, each once, in the order of first occurrence:
/// the keys of a dictionary.
pub fn unique_child_names(spans: &Vec<ChildSpan>) -> (out: Vec<Vec<u8>>)
    ensures
        bytes_view(out@) == names_once(spans_view(spans@)),
{
    let ghost view = spans_view(spans@);
    let mut out: Vec<Vec<u8>> = Vec::new();
    assert(bytes_view(out@) =~= names_once(view.take(0)));
    for i in 0..spans.len()
        invariant
            view == spans_view(spans@),
            bytes_view(out@) == names_once(view.take(i as int)),
    {
        let ghost before = out@;
        assert(view.take(i + 1).drop_last() =~= view.take(i as int));
        assert(view.take(i + 1).last() == spans@[i as int]@);
        if !holds_name(&out, spans[i].name.as_slice()) {
            out.push(copy_bytes(spans[i].name.as_slice()));
            assert(bytes_view(out@) =~= bytes_view(before).push(spans@[i as int].name@));
        }
    }
    assert(view.take(spans@.len() as int) =~= view);
    out
}

/// The bytes of the child elements with a name.
pub open spec fn fragments_named(bytes: Seq<u8>, spans: Seq<SpanV>, name: Seq<u8>) -> Seq<Seq<u8>>
    decreases spans.len(),
{
    if spans.len() == 0 {
        Seq::empty()
    } else {
        let head = fragments_named(bytes, spans.drop_last(), name);
        let last = spans.last();
        if last.name == name {
            head.push(bytes.subrange(last.start as int, last.end as int))
        } else {
            head
        }
    }
}

/// The child elements with a name: the value that a dictionary has for a key.
/// A key that no child has has no value.
pub fn children_named(bytes: &[u8], name: &[u8]) -> (r: Option<Vec<Vec<u8>>>)
    ensures
        ({
            let found = fragments_named(bytes@, children_of(bytes@), name@);
            match r {
                Some(list) => bytes_view(list@) == found && found.len() > 0,
                None => found.len() == 0,
            }
        }),
{
    let spans = collect_direct_children(bytes);
    let ghost view = spans_view(spans@);
    let mut out: Vec<Vec<u8>> = Vec::new();
    assert(bytes_view(out@) =~= fragments_named(bytes@, view.take(0), name@));
    for i in 0..spans.len()
        invariant
            view == spans_view(spans@),
            spans_within(spans@, bytes@.len()),
            bytes_view(out@) == fragments_named(bytes@, view.take(i as int), name@),
    {
        let ghost before = out@;
        assert(view.take(i + 1).drop_last() =~= view.take(i as int));
        assert(view.take(i + 1).last() == spans@[i as int]@);
        if same_bytes(spans[i].name.as_slice(), name) {
            let part = vstd::slice::slice_subrange(bytes, spans[i].start, spans[i].end);
            out.push(copy_bytes(part));
            assert(bytes_view(out@) =~= bytes_view(before).push(part@));
        }
    }
    assert(view.take(spans@.len() as int) =~= view);
    assert(bytes_view(out@).len() == out@.len());
    if out.len() == 0 {
        None
    } else {
        Some(out)
    }
}

/// What a result is as a value.
#[derive(Debug, Clone, Copy, PartialEq, Eq, Structural)]
pub enum Mode {
    Empty,
    /// A scalar, or an element without child elements: a string.
    ScalarLike,
    /// An element with child elements: a dictionary keyed by their names.
    DictElement,
    /// Several things: a list.
    Multi,
}

/// What a list of held things is as a value.
pub open spec fn mode_of(items: Seq<HeldV>) -> Mode {
    if items.len() == 0 {
        Mode::Empty
    } else if items.len() > 1 {
        Mode::Multi
    } else if items[0].is_dict() {
        Mode::DictElement
    } else {
        Mode::ScalarLike
    }
}

/// What a result is as a value.
pub fn mode(items: &[Held]) -> (r: Mode)
    ensures
        r == mode_of(held_view(items@)),
{
    if items.len() == 0 {
        return Mode::Empty;
    }
    if items.len() > 1 {
        return Mode::Multi;
    }
    assert(held_view(items@)[0] == items@[0]@);
    let dict = match &items[0] {
        Held::Scalar(_) => false,
        Held::Document(bytes) => element_has_child_elements(bytes),
        Held::Fragment(bytes) => element_has_child_elements(bytes),
    };
    if dict {
        Mode::DictElement
    } else {
        Mode::ScalarLike
    }
}

/// What a mode is called.
pub open spec fn label_of(mode: Mode) -> Seq<char> {
    match mode {
        Mode::Empty => "empty"@,
        Mode::ScalarLike => "scalar"@,
        Mode::DictElement => "dict"@,
        Mode::Multi => "multi"@,
    }
}

/// What a mode is called.
pub fn mode_label(mode: Mode) -> (s: &'static str)
    ensures
        s@ == label_of(mode),
{
    match mode {
        Mode::Empty => "empty",
        Mode::ScalarLike => "scalar",
        Mode::DictElement => "dict",
        Mode::Multi => "multi",
    }
}

impl<'a> Held<'a> {
    /// The text: the text content of an element, or the scalar itself.
    pub fn text(&self) -> (r: Vec<u8>)
        ensures
            r@ == self@.text(),
    {
        match self {
            Held::Scalar(bytes) => copy_bytes(bytes),
            Held::Document(bytes) => extract_element_text(bytes),
            Held::Fragment(bytes) => extract_element_text(bytes),
        }
    }

    /// The bytes that are held.
    pub fn bytes(&self) -> (r: &'a [u8])
        ensures
            r@ == self@.bytes(),
    {
        match self {
            Held::Scalar(bytes) => bytes,
            Held::Document(bytes) => bytes,
            Held::Fragment(bytes) => bytes,
        }
    }
}

/// What kind of scalar a text is.
#[derive(Debug, Clone, Copy, PartialEq, Eq, Structural)]
pub enum ScalarKind {
    Int(i64),
    /// A number that is no 64-bit integer.
    Float,
    Str,
}

/// What kind of scalar a text is.
pub open spec fn kind_of(s: Seq<char>) -> ScalarKind {
    match i64_value(s) {
        Some(n) => ScalarKind::Int(n),
        None => if is_numeral(s) {
            ScalarKind::Float
        } else {
            ScalarKind::Str
        },
    }
}

/// Tells what kind of scalar a text is.
pub fn classify_scalar(s: &str) -> (r: ScalarKind)
    ensures
        r == kind_of(s@),
{
    let chars = chars_of(s);
    match parse_i64(chars.as_slice()) {
        Some(n) => ScalarKind::Int(n),
        None => if numeral_chars(chars.as_slice()) {
            ScalarKind::Float
        } else {
            ScalarKind::Str
        },
    }
}

/// A text as an integer.
#[derive(Debug)]
pub enum IntReading {
    Value(i64),
    /// What is left of the number that this numeral stands for once its
    /// fraction is cut off.
    Truncated(String),
}

/// The content of an [`IntReading`].
pub enum IntReadingV {
    Value(i64),
    Truncated(Seq<char>),
}

impl View for IntReading {
    type V = IntReadingV;

    open spec fn view(&self) -> IntReadingV {
        match self {
            IntReading::Value(n) => IntReadingV::Value(*n),
            IntReading::Truncated(s) => IntReadingV::Truncated(s@),
        }
    }
}

/// The integer that a text is read as. What is no number reads as zero.
pub open spec fn int_reading(text: Seq<u8>) -> IntReadingV {
    let s = trimmed(text_or_empty(text));
    match i64_value(s) {
        Some(n) => IntReadingV::Value(n),
        None => if is_numeral(s) {
            IntReadingV::Truncated(s)
        } else {
            IntReadingV::Value(0)
        },
    }
}

/// Reads a text as an integer.
pub fn to_int(text: &[u8]) -> (r: IntReading)
    ensures
        r@ == int_reading(text@),
{
    let chars = chars_of(utf8_or_empty(text));
    let s = trim(chars.as_slice());
    match parse_i64(s.as_slice()) {
        Some(n) => IntReading::Value(n),
        None => if numeral_chars(s.as_slice()) {
            IntReading::Truncated(string_of(s.as_slice()))
        } else {
            IntReading::Value(0)
        },
    }
}

/// The numeral of the floating-point number that a text is read as, or nothing
/// for zero.
pub open spec fn float_reading(text: Seq<u8>) -> Option<Seq<char>> {
    let s = trimmed(text_or_empty(text));
    if is_numeral(s) {
        Some(s)
    } else {
        None
    }
}

/// Reads a text as a floating-point number: its numeral, or nothing for zero.
pub fn to_float(text: &[u8]) -> (r: Option<String>)
    ensures
        match r {
            Some(s) => float_reading(text@) == Some(s@),
            None => float_reading(text@) is None,
        },
{
    let chars = chars_of(utf8_or_empty(text));
    let s = trim(chars.as_slice());
    if numeral_chars(s.as_slice()) {
        Some(string_of(s.as_slice()))
    } else {
        None
    }
}

/// The truth value that a text spells.
pub open spec fn bool_literal(s: Seq<char>) -> Option<bool> {
    if s == "1"@ || s == "true"@ || s == "\"t\""@ || s == "\"1\""@ || s == "\"T\""@ || s
        == "\"true\""@ || s == "\"TRUE\""@ || s == "\"True\""@ {
        Some(true)
    } else if s == "0"@ || s == "false"@ || s == "\"f\""@ || s == "\"0\""@ || s == "\"F\""@ || s
        == "\"false\""@ || s == "\"FALSE\""@ || s == "\"False\""@ {
        Some(false)
    } else {
        None
    }
}

fn spelled_bool(s: &str) -> (r: Option<bool>)
    ensures
        r == bool_literal(s@),
{
    if same_text(s, "1") || same_text(s, "true") || same_text(s, "\"t\"") || same_text(
        s,
        "\"1\"",
    ) || same_text(s, "\"T\"") || same_text(s, "\"true\"") || same_text(s, "\"TRUE\"")
        || same_text(s, "\"True\"") {
        Some(true)
    } else if same_text(s, "0") || same_text(s, "false") || same_text(s, "\"f\"") || same_text(
        s,
        "\"0\"",
    ) || same_text(s, "\"F\"") || same_text(s, "\"false\"") || same_text(s, "\"FALSE\"")
        || same_text(s, "\"False\"") {
        Some(false)
    } else {
        None
    }
}

/// A result as a truth value.
#[derive(Debug)]
pub enum BoolReading {
    Value(bool),
    /// Whether something is left of the number that this numeral stands for
    /// once its fraction is cut off.
    Truncated(String),
}

/// The content of a [`BoolReading`].
pub enum BoolReadingV {
    Value(bool),
    Truncated(Seq<char>),
}

impl View for BoolReading {
    type V = BoolReadingV;

    open spec fn view(&self) -> BoolReadingV {
        match self {
            BoolReading::Value(b) => BoolReadingV::Value(*b),
            BoolReading::Truncated(s) => BoolReadingV::Truncated(s@),
        }
    }
}

/// The truth value that a result is read as: dictionaries and lists are true,
/// and a scalar is what it spells, or else whether its integer is not zero.
pub open spec fn bool_reading(items: Seq<HeldV>) -> BoolReadingV {
    match mode_of(items) {
        Mode::Empty => BoolReadingV::Value(false),
        Mode::Multi => BoolReadingV::Value(true),
        Mode::DictElement => BoolReadingV::Value(true),
        Mode::ScalarLike => {
            let text = items[0].text();
            match bool_literal(text_or_empty(text)) {
                Some(b) => BoolReadingV::Value(b),
                None => match int_reading(text) {
                    IntReadingV::Value(n) => BoolReadingV::Value(n != 0),
                    IntReadingV::Truncated(s) => BoolReadingV::Truncated(s),
                },
            }
        },
    }
}

/// Reads a result as a truth value.
pub fn to_bool(items: &[Held]) -> (r: BoolReading)
    ensures
        r@ == bool_reading(held_view(items@)),
{
    match mode(items) {
        Mode::Empty => BoolReading::Value(false),
        Mode::Multi => BoolReading::Value(true),
        Mode::DictElement => BoolReading::Value(true),
        Mode::ScalarLike => {
            assert(held_view(items@)[0] == items@[0]@);
            let text = items[0].text();
            match spelled_bool(utf8_or_empty(text.as_slice())) {
                Some(b) => BoolReading::Value(b),
                None => match to_int(text.as_slice()) {
                    IntReading::Value(n) => BoolReading::Value(n != 0),
                    IntReading::Truncated(s) => BoolReading::Truncated(s),
                },
            }
        },
    }
}

/// Bytes as text, with a replacement character for whatever is not valid
/// UTF-8.
pub uninterp spec fn lossy_text(bytes: Seq<u8>) -> Seq<char>;

/// `String::from_utf8_lossy` reads bytes as text, and keeps valid UTF-8 as it
/// is. What it makes of other bytes is left to the name [`lossy_text`].
#[verifier::external_body]
fn lossy(bytes: &[u8]) -> (r: String)
    ensures
        r@ == lossy_text(bytes@),
        valid_utf8(bytes@) ==> r@ == decode_utf8(bytes@),
{
    String::from_utf8_lossy(bytes).into_owned()
}

/// Texts one after the other, with a separator between them.
pub open spec fn joined(parts: Seq<Seq<char>>, separator: Seq<char>) -> Seq<char>
    decreases parts.len(),
{
    if parts.len() == 0 {
        Seq::empty()
    } else if parts.len() == 1 {
        parts[0]
    } else {
        joined(parts.drop_last(), separator) + separator + parts.last()
    }
}

/// Joins texts.
fn join(parts: &Vec<String>, separator: &str) -> (r: String)
    ensures
        r@ == joined(texts_view(parts@), separator@),
{
    let ghost all = texts_view(parts@);
    let mut r = String::new();
    assert(r@ =~= joined(all.take(0), separator@));
    for i in 0..parts.len()
        invariant
            all == texts_view(parts@),
            r@ == joined(all.take(i as int), separator@),
    {
        assert(all.take(i + 1).drop_last() =~= all.take(i as int));
        assert(all.take(i + 1).last() == parts@[i as int]@);
        let ghost before = r@;
        if i > 0 {
            push_text(&mut r, separator);
        }
        push_text(&mut r, parts[i].as_str());
        proof {
            if i == 0 {
                assert(before =~= Seq::empty());
                assert(r@ =~= parts@[0]@);
            }
        }
    }
    assert(all.take(parts@.len() as int) =~= all);
    r
}

/// A result as a string: the text of a scalar without white space around it,
/// and the XML of a dictionary or of the entries of a list, one per line.
/// A scalar that is not valid UTF-8 has none.
pub open spec fn str_reading(items: Seq<HeldV>) -> Option<Seq<char>> {
    match mode_of(items) {
        Mode::Empty => Some(Seq::empty()),
        Mode::ScalarLike => {
            let text = items[0].text();
            if valid_utf8(text) {
                Some(trimmed(decode_utf8(text)))
            } else {
                None
            }
        },
        _ => Some(
            joined(Seq::new(items.len(), |i: int| lossy_text(items[i].bytes())), seq!['\n']),
        ),
    }
}

/// Reads a result as a string.
pub fn to_str(items: &[Held]) -> (r: Option<String>)
    ensures
        match r {
            Some(s) => str_reading(held_view(items@)) == Some(s@),
            None => str_reading(held_view(items@)) is None,
        },
{
    match mode(items) {
        Mode::Empty => {
            let s = String::new();
            assert(s@ =~= Seq::<char>::empty());
            Some(s)
        },
        Mode::ScalarLike => {
            assert(held_view(items@)[0] == items@[0]@);
            let text = items[0].text();
            match utf8_str(text.as_slice()) {
                Some(s) => {
                    let chars = chars_of(s);
                    let kept = trim(chars.as_slice());
                    Some(string_of(kept.as_slice()))
                },
                None => None,
            }
        },
        _ => Some(xml_string(items)),
    }
}

/// The bytes of all entries as text, one entry per line.
fn xml_string(items: &[Held]) -> (r: String)
    ensures
        r@ == joined(
            Seq::new(items@.len(), |i: int| lossy_text(held_view(items@)[i].bytes())),
            seq!['\n'],
        ),
{
    let ghost all = Seq::new(items@.len(), |i: int| lossy_text(held_view(items@)[i].bytes()));
    let mut parts: Vec<String> = Vec::new();
    for i in 0..items.len()
        invariant
            all == Seq::new(
                items@.len(),
                |i: int| lossy_text(held_view(items@)[i].bytes()),
            ),
            parts@.len() == i,
            forall|j: int| 0 <= j < i ==> (#[trigger] parts@[j])@ == all[j],
    {
        parts.push(lossy(items[i].bytes()));
    }
    assert(texts_view(parts@) =~= all);
    proof {
        reveal_strlit("\n");
        assert("\n"@ =~= seq!['\n']);
    }
    join(&parts, "\n")
}

/// The texts of all entries, unless one of them is not valid UTF-8.
pub open spec fn strings_of(items: Seq<HeldV>) -> Option<Seq<Seq<char>>> {
    if forall|i: int| 0 <= i < items.len() ==> valid_utf8((#[trigger] items[i]).text()) {
        Some(Seq::new(items.len(), |i: int| decode_utf8(items[i].text())))
    } else {
        None
    }
}

/// The texts of all entries.
pub fn all_strings(items: &[Held]) -> (r: Option<Vec<String>>)
    ensures
        match r {
            Some(texts) => strings_of(held_view(items@)) == Some(texts_view(texts@)),
            None => strings_of(held_view(items@)) is None,
        },
{
    let ghost view = held_view(items@);
    let mut out: Vec<String> = Vec::new();
    for i in 0..items.len()
        invariant
            view == held_view(items@),
            out@.len() == i,
            forall|j: int|
                0 <= j < i ==> valid_utf8((#[trigger] view[j]).text()) && out@[j]@ == decode_utf8(
                    view[j].text(),
                ),
    {
        assert(view[i as int] == items@[i as int]@);
        let text = items[i].text();
        match utf8_str(text.as_slice()) {
            Some(s) => {
                out.push(copy_text(s));
            },
            None => {
                assert(!valid_utf8(view[i as int].text()));
                return None;
            },
        }
    }
    assert(texts_view(out@) =~= Seq::new(view.len(), |i: int| decode_utf8(view[i].text())));
    Some(out)
}

/// Compares the texts of all entries with a list of texts. There is no answer
/// where a text is not valid UTF-8.
pub fn equals_texts(items: &[Held], texts: &Vec<String>) -> (r: Option<bool>)
    ensures
        match strings_of(held_view(items@)) {
            Some(own) => r == Some(own == texts_view(texts@)),
            None => r is None,
        },
{
    match all_strings(items) {
        Some(own) => Some(crate::number::same_texts(&own, texts)),
        None => None,
    }
}

/// Compares the text of the first entry with a text. Nothing, and what is not
/// valid UTF-8, equals no text.
pub fn equals_text(items: &[Held], text: &str) -> (r: bool)
    ensures
        r == (items@.len() > 0 && valid_utf8(held_view(items@)[0].text()) && decode_utf8(
            held_view(items@)[0].text(),
        ) == text@),
{
    if items.len() == 0 {
        return false;
    }
    assert(held_view(items@)[0] == items@[0]@);
    let own = items[0].text();
    match utf8_str(own.as_slice()) {
        Some(s) => same_text(s, text),
        None => false,
    }
}

/// The place that an index means in a list of `n`: from the end where it is
/// negative.
pub open spec fn index_at(idx: int, n: nat) -> Option<int> {
    let i = if idx < 0 {
        idx + n
    } else {
        idx
    };
    if 0 <= i < n {
        Some(i)
    } else {
        None
    }
}

/// Finds the place that an index means.
pub fn normal_index(idx: isize, n: usize) -> (r: Option<usize>)
    ensures
        match r {
            Some(i) => index_at(idx as int, n as nat) == Some(i as int) && i < n,
            None => index_at(idx as int, n as nat) is None,
        },
{
    if idx >= 0 {
        let i = idx as usize;
        if i < n {
            Some(i)
        } else {
            None
        }
    } else {
        let back = (-(idx + 1)) as usize;
        if back < n {
            Some(n - 1 - back)
        } else {
            None
        }
    }
}

/// How far a slice has still to go.
pub open spec fn ahead(i: int, stop: int, step: int) -> nat {
    if step > 0 && i < stop {
        (stop - i) as nat
    } else if step < 0 && i > stop {
        (i - stop) as nat
    } else {
        0
    }
}

/// The places that a slice takes in a list of `n`, from `i` on in strides of
/// `step` up to `stop`.
pub open spec fn places(i: int, stop: int, step: int, n: nat) -> Seq<int>
    decreases ahead(i, stop, step),
{
    if (step > 0 && i < stop) || (step < 0 && i > stop) {
        (if 0 <= i < n {
            seq![i]
        } else {
            Seq::empty()
        }) + places(i + step, stop, step, n)
    } else {
        Seq::empty()
    }
}

/// Positions as mathematical integers.
pub open spec fn ints_view(list: Seq<usize>) -> Seq<int> {
    Seq::new(list.len(), |k: int| list[k] as int)
}

/// Finds the places that a slice takes.
pub fn slice_places(start: isize, stop: isize, step: isize, n: usize) -> (out: Vec<usize>)
    ensures
        ints_view(out@) == places(start as int, stop as int, step as int, n as nat),
        forall|k: int| 0 <= k < out@.len() ==> (#[trigger] out@[k]) < n,
{
    let ghost whole = places(start as int, stop as int, step as int, n as nat);
    let mut out: Vec<usize> = Vec::new();
    let mut i: isize = start;
    assert(ints_view(out@) + whole =~= whole);
    while (step > 0 && i < stop) || (step < 0 && i > stop)
        invariant
            whole == places(start as int, stop as int, step as int, n as nat),
            ints_view(out@) + places(i as int, stop as int, step as int, n as nat) == whole,
            forall|k: int| 0 <= k < out@.len() ==> (#[trigger] out@[k]) < n,
        decreases ahead(i as int, stop as int, step as int),
    {
        let ghost before = ints_view(out@);
        let ghost rest = places(i + step, stop as int, step as int, n as nat);
        if i >= 0 && (i as usize) < n {
            out.push(i as usize);
            assert(ints_view(out@) =~= before.push(i as int));
            assert(before + (seq![i as int] + rest) =~= before.push(i as int) + rest);
        } else {
            assert(before + (Seq::<int>::empty() + rest) =~= before + rest);
        }
        match i.checked_add(step) {
            Some(next) => {
                i = next;
            },
            None => {
                assert(rest =~= Seq::empty());
                assert(ints_view(out@) + rest =~= ints_view(out@));
                return out;
            },
        }
    }
    assert(ints_view(out@) + Seq::<int>::empty() =~= ints_view(out@));
    out
}

/// Why a text has no character to give.
#[derive(Debug, Clone, Copy, PartialEq, Eq, Structural)]
pub enum CharError {
    /// The text is not valid UTF-8.
    NotText,
    OutOfRange,
}

/// The character of a text at an index.
pub fn char_at(text: &[u8], idx: isize) -> (r: Result<char, CharError>)
    ensures
        r == if !valid_utf8(text@) {
            Err::<char, CharError>(CharError::NotText)
        } else {
            match index_at(idx as int, decode_utf8(text@).len()) {
                Some(i) => Ok(decode_utf8(text@)[i]),
                None => Err(CharError::OutOfRange),
            }
        },
{
    match text_chars(text) {
        Some(chars) => match normal_index(idx, chars.len()) {
            Some(i) => Ok(chars[i]),
            None => Err(CharError::OutOfRange),
        },
        None => Err(CharError::NotText),
    }
}

/// The characters of a text, unless it is not valid UTF-8.
pub fn text_chars(text: &[u8]) -> (r: Option<Vec<char>>)
    ensures
        match r {
            Some(chars) => valid_utf8(text@) && chars@ == decode_utf8(text@),
            None => !valid_utf8(text@),
        },
{
    match utf8_str(text) {
        Some(s) => Some(chars_of(s)),
        None => None,
    }
}

/// The characters of a text at the places that a slice takes, unless it is not
/// valid UTF-8.
pub fn substring(text: &[u8], start: isize, stop: isize, step: isize) -> (r: Option<String>)
    ensures
        match r {
            Some(s) => {
                let chars = decode_utf8(text@);
                let at = places(start as int, stop as int, step as int, chars.len());
                valid_utf8(text@) && s@ == Seq::new(at.len(), |k: int| chars[at[k]])
            },
            None => !valid_utf8(text@),
        },
{
    let chars = match text_chars(text) {
        Some(chars) => chars,
        None => {
            return None;
        },
    };
    let at = slice_places(start, stop, step, chars.len());
    let mut s = String::new();
    for k in 0..at.len()
        invariant
            forall|k: int| 0 <= k < at@.len() ==> (#[trigger] at@[k]) < chars@.len(),
            s@.len() == k,
            forall|j: int| 0 <= j < k ==> s@[j] == chars@[at@[j] as int],
    {
        s.push(chars[at[k]]);
    }
    proof {
        let all = decode_utf8(text@);
        let want = places(start as int, stop as int, step as int, all.len());
        assert(ints_view(at@) == want);
        assert forall|k: int| 0 <= k < want.len() implies want[k] == at@[k] as int by {
            assert(ints_view(at@)[k] == at@[k] as int);
        }
        assert(s@ =~= Seq::new(want.len(), |k: int| all[want[k]]));
    }
    Some(s)
}

/// How many a result holds: the characters of a string, the keys of a
/// dictionary, the entries of a list. A string that is not valid UTF-8 has no
/// length.
pub open spec fn length_of(items: Seq<HeldV>) -> Option<nat> {
    match mode_of(items) {
        Mode::Empty => Some(0),
        Mode::Multi => Some(items.len()),
        Mode::DictElement => Some(names_once(children_of(items[0].bytes())).len()),
        Mode::ScalarLike => if valid_utf8(items[0].text()) {
            Some(decode_utf8(items[0].text()).len())
        } else {
            None
        },
    }
}

/// Counts what a result holds.
pub fn length(items: &[Held]) -> (r: Option<usize>)
    ensures
        match r {
            Some(n) => length_of(held_view(items@)) == Some(n as nat),
            None => length_of(held_view(items@)) is None,
        },
{
    match mode(items) {
        Mode::Empty => Some(0),
        Mode::Multi => Some(items.len()),
        Mode::DictElement => {
            assert(held_view(items@)[0] == items@[0]@);
            let spans = collect_direct_children(items[0].bytes());
            let names = unique_child_names(&spans);
            assert(bytes_view(names@).len() == names@.len());
            Some(names.len())
        },
        Mode::ScalarLike => {
            assert(held_view(items@)[0] == items@[0]@);
            let text = items[0].text();
            match text_chars(text.as_slice()) {
                Some(chars) => Some(chars.len()),
                None => None,
            }
        },
    }
}

/// A list in brackets; of three or more only the first two are shown.
pub open spec fn listed(parts: Seq<Seq<char>>) -> Seq<char> {
    if parts.len() >= 3 {
        "["@ + joined(parts.take(2), ", "@) + ", ...]"@
    } else {
        "["@ + joined(parts, ", "@) + "]"@
    }
}

/// How a dictionary is shown.
pub open spec fn dict_shown(keys: Seq<Seq<char>>) -> Seq<char> {
    "<Result type=dict, keys="@ + listed(keys) + ">"@
}

/// How a list is shown.
pub open spec fn list_shown(entries: Seq<Seq<char>>) -> Seq<char> {
    "<Result type=list, value="@ + listed(entries) + ">"@
}

/// Shows a list in brackets.
fn show_list(parts: &Vec<String>) -> (r: String)
    ensures
        r@ == listed(texts_view(parts@)),
{
    let ghost all = texts_view(parts@);
    let mut r = copy_text("[");
    if parts.len() >= 3 {
        let mut two: Vec<String> = Vec::new();
        two.push(copy_text(parts[0].as_str()));
        two.push(copy_text(parts[1].as_str()));
        assert(texts_view(two@) =~= all.take(2));
        let text = join(&two, ", ");
        push_text(&mut r, text.as_str());
        push_text(&mut r, ", ...]");
    } else {
        let text = join(parts, ", ");
        push_text(&mut r, text.as_str());
        push_text(&mut r, "]");
    }
    r
}

/// Shows a dictionary by its keys.
pub fn show_dict(names: &Vec<Vec<u8>>) -> (r: String)
    ensures
        r@ == dict_shown(Seq::new(names@.len(), |i: int| lossy_text(names@[i]@))),
{
    let mut keys: Vec<String> = Vec::new();
    for i in 0..names.len()
        invariant
            keys@.len() == i,
            forall|j: int| 0 <= j < i ==> (#[trigger] keys@[j])@ == lossy_text(names@[j]@),
    {
        keys.push(lossy(names[i].as_slice()));
    }
    assert(texts_view(keys@) =~= Seq::new(names@.len(), |i: int| lossy_text(names@[i]@)));
    let mut r = copy_text("<Result type=dict, keys=");
    let text = show_list(&keys);
    push_text(&mut r, text.as_str());
    push_text(&mut r, ">");
    r
}

/// Shows a list by its entries.
pub fn show_entries(entries: &Vec<String>) -> (r: String)
    ensures
        r@ == list_shown(texts_view(entries@)),
{
    let mut r = copy_text("<Result type=list, value=");
    let text = show_list(entries);
    push_text(&mut r, text.as_str());
    push_text(&mut r, ">");
    r
}

} // verus!
