//! XML documents as sequences of events, read with a streaming parser.

use quick_xml::events::{BytesStart, Event};
use quick_xml::name::QName;
use quick_xml::reader::Reader;
use vstd::prelude::*;
use vstd::utf8::{decode_utf8, encode_utf8, valid_utf8};

use crate::text::{append_bytes, copy_bytes, same_bytes, utf8_str};

verus! {

/// The streaming parser, which holds the events that are still to come.
#[verifier::external_type_specification]
#[verifier::external_body]
#[verifier::reject_recursive_types(R)]
pub struct ExReader<R>(Reader<R>);

/// The content of a start tag or an empty-element tag.
#[verifier::external_type_specification]
#[verifier::external_body]
pub struct ExBytesStart<'a>(BytesStart<'a>);

/// The content of a tag between `<` and `>` (or `/>`), and how many of its
/// bytes are the element's name.
pub struct TagV {
    pub content: Seq<u8>,
    pub name_len: nat,
}

impl TagV {
    /// The qualified name of the element.
    pub open spec fn name(self) -> Seq<u8> {
        self.content.take(self.name_len as int)
    }
}

/// One event of a document. Texts and CDATA sections carry their raw bytes.
pub enum EventV {
    Start(TagV),
    Empty(TagV),
    End(Seq<u8>),
    Text(Seq<u8>),
    CData(Seq<u8>),
    /// A comment, a declaration, a processing instruction or a document type.
    Other,
    /// Markup that the parser does not accept.
    Error,
}

/// An event, and the byte offset at which the parser stands behind it.
pub struct EventAt {
    pub event: EventV,
    pub end: nat,
}

/// A document: its bytes and its events. A part of a larger document starts at
/// the offset `base` of that document.
pub struct DocV {
    pub bytes: Seq<u8>,
    pub events: Seq<EventAt>,
    pub base: nat,
}

/// The events that the parser reads from a document, up to its end.
pub uninterp spec fn xml_events(xml: Seq<u8>, check_end_names: bool) -> Seq<EventAt>;

/// The events that a parser has still to read.
pub uninterp spec fn upcoming(reader: Reader<&[u8]>) -> Seq<EventAt>;

/// The byte offset at which a parser stands.
pub uninterp spec fn position(reader: Reader<&[u8]>) -> nat;

/// The bytes of a tag's content.
pub uninterp spec fn tag_content(tag: BytesStart<'static>) -> Seq<u8>;

/// The length of the name at the start of a tag's content.
pub uninterp spec fn tag_name_len(tag: BytesStart<'static>) -> nat;

/// The attributes of a tag in order, each with its key and its raw value;
/// `None` stands for an attribute that the parser does not accept.
pub uninterp spec fn attributes_of(content: Seq<u8>, name_len: nat) -> Seq<
    Option<(Seq<u8>, Seq<u8>)>,
>;

/// A text with its entity and character references resolved, where all of
/// them can be.
pub uninterp spec fn resolved(text: Seq<char>) -> Option<Seq<char>>;

/// A document that is read the usual way, with end tags checked against
/// their start tags.
pub open spec fn doc_of(xml: Seq<u8>) -> DocV {
    doc_at(xml, 0)
}

/// A part of a document, read by itself, that starts at the offset `base`.
pub open spec fn doc_at(xml: Seq<u8>, base: nat) -> DocV {
    DocV { bytes: xml, events: xml_events(xml, true), base }
}

/// How many of the events are read to get past the end tag that closes an
/// element `name` whose start tag has just been read: the first end tag of
/// that name that no start tag of that name before it accounts for, or the
/// first error, or all events.
pub open spec fn skipped(events: Seq<EventAt>, name: Seq<u8>, depth: nat) -> nat
    decreases events.len(),
{
    if events.len() == 0 {
        0
    } else {
        let rest = events.skip(1);
        match events[0].event {
            EventV::Error => 1,
            EventV::Start(tag) if tag.name() == name => 1 + skipped(rest, name, depth + 1),
            EventV::End(end) if end == name => if depth == 0 {
                1
            } else {
                1 + skipped(rest, name, (depth - 1) as nat)
            },
            _ => 1 + skipped(rest, name, depth),
        }
    }
}

/// Where reading goes on behind the element `name` whose start tag is the
/// event before `i`.
pub open spec fn after_element(events: Seq<EventAt>, i: int, name: Seq<u8>) -> int {
    i + skipped(events.skip(i), name, 0)
}

/// The byte offset at which the parser stands before the event `i`.
pub open spec fn pos_at(events: Seq<EventAt>, i: int) -> nat {
    if i <= 0 {
        0
    } else {
        events[i - 1].end
    }
}

/// The offset in the whole document from which the event `i` is read.
pub open spec fn place_at(d: DocV, i: int) -> nat {
    d.base + pos_at(d.events, i)
}

/// Offsets grow from event to event and stay within `len`.
pub open spec fn ordered(events: Seq<EventAt>, len: nat) -> bool {
    &&& forall|i: int| 0 <= i < events.len() ==> 0 < #[trigger] events[i].end <= len
    &&& forall|i: int, j: int|
        0 <= i < j < events.len() ==> #[trigger] events[i].end < #[trigger] events[j].end
}

/// The attributes as plain values.
pub open spec fn attrs_view(attrs: Seq<Option<(Vec<u8>, Vec<u8>)>>) -> Seq<
    Option<(Seq<u8>, Seq<u8>)>,
> {
    Seq::new(
        attrs.len(),
        |i: int|
            match attrs[i] {
                Some((key, value)) => Some((key@, value@)),
                None => None,
            },
    )
}

/// The tag of an element.
pub struct Tag {
    start: BytesStart<'static>,
}

impl View for Tag {
    type V = TagV;

    closed spec fn view(&self) -> TagV {
        TagV { content: tag_content(self.start), name_len: tag_name_len(self.start) }
    }
}

/// One event of a document, or its end.
pub enum XmlEvent {
    Start(Tag),
    Empty(Tag),
    End(Vec<u8>),
    Text(Vec<u8>),
    CData(Vec<u8>),
    Other,
    Error,
    Eof,
}

impl XmlEvent {
    /// The event, or nothing at the end of the document.
    pub open spec fn event(self) -> Option<EventV> {
        match self {
            XmlEvent::Start(tag) => Some(EventV::Start(tag@)),
            XmlEvent::Empty(tag) => Some(EventV::Empty(tag@)),
            XmlEvent::End(name) => Some(EventV::End(name@)),
            XmlEvent::Text(text) => Some(EventV::Text(text@)),
            XmlEvent::CData(text) => Some(EventV::CData(text@)),
            XmlEvent::Other => Some(EventV::Other),
            XmlEvent::Error => Some(EventV::Error),
            XmlEvent::Eof => None,
        }
    }
}

/// `Reader::from_reader` on a byte slice, with text left untrimmed and empty
/// elements reported as such. The parser starts at offset 0 with all events of
/// the document to come. Every event consumes input, so that the offsets grow,
/// and no offset lies beyond the input. Which events a document has is left to
/// the name [`xml_events`].
#[verifier::external_body]
fn new_reader<'a>(xml: &'a [u8], check_end_names: bool) -> (reader: Reader<&'a [u8]>)
    ensures
        upcoming(reader) == xml_events(xml@, check_end_names),
        position(reader) == 0,
        ordered(upcoming(reader), xml@.len()),
{
    let mut reader = Reader::from_reader(xml);
    reader.config_mut().trim_text(false);
    reader.config_mut().expand_empty_elements = false;
    reader.config_mut().check_end_names = check_end_names;
    reader
}

/// `Reader::read_event_into` reads the next event and moves behind it; at the
/// end of the document it stays where it is.
#[verifier::external_body]
fn read_event(reader: &mut Reader<&[u8]>, buf: &mut Vec<u8>) -> (e: XmlEvent)
    ensures
        match e.event() {
            None => upcoming(*old(reader)).len() == 0 && upcoming(*final(reader)) == upcoming(
                *old(reader),
            ) && position(*final(reader)) == position(*old(reader)),
            Some(event) => upcoming(*old(reader)).len() > 0 && event == upcoming(
                *old(reader),
            )[0].event && upcoming(*final(reader)) == upcoming(*old(reader)).skip(1) && position(
                *final(reader),
            ) == upcoming(*old(reader))[0].end,
        },
{
    buf.clear();
    match reader.read_event_into(buf) {
        Ok(Event::Start(s)) => XmlEvent::Start(Tag { start: s.into_owned() }),
        Ok(Event::Empty(s)) => XmlEvent::Empty(Tag { start: s.into_owned() }),
        Ok(Event::End(e)) => XmlEvent::End(e.name().into_inner().to_vec()),
        Ok(Event::Text(t)) => XmlEvent::Text(t.to_vec()),
        Ok(Event::CData(c)) => XmlEvent::CData(c.to_vec()),
        Ok(Event::Eof) => XmlEvent::Eof,
        Ok(_) => XmlEvent::Other,
        Err(_) => XmlEvent::Error,
    }
}

/// `Reader::read_to_end_into` reads events up to and with the end tag that
/// closes the element `name`, stepping over elements of the same name inside;
/// it stops behind an error and at the end of the document.
#[verifier::external_body]
fn read_to_end(reader: &mut Reader<&[u8]>, name: &[u8], buf: &mut Vec<u8>)
    ensures
        upcoming(*final(reader)) == upcoming(*old(reader)).skip(
            skipped(upcoming(*old(reader)), name@, 0) as int,
        ),
        position(*final(reader)) == if skipped(upcoming(*old(reader)), name@, 0) == 0 {
            position(*old(reader))
        } else {
            upcoming(*old(reader))[skipped(upcoming(*old(reader)), name@, 0) - 1].end
        },
{
    let _ = reader.read_to_end_into(QName(name), buf);
}

/// `Reader::buffer_position` is the byte offset at which the parser stands.
#[verifier::external_body]
fn buffer_position(reader: &Reader<&[u8]>) -> (r: u64)
    ensures
        r == position(*reader),
{
    reader.buffer_position()
}

/// `Reader::clone` makes a second parser over the same input that stands at the
/// same place; both go on independently.
#[verifier::external_body]
fn copy_reader<'a>(reader: &Reader<&'a [u8]>) -> (r: Reader<&'a [u8]>)
    ensures
        upcoming(r) == upcoming(*reader),
        position(r) == position(*reader),
{
    reader.clone()
}

/// A `BytesStart` holds the bytes of the tag's content.
#[verifier::external_body]
fn start_content<'a>(tag: &'a BytesStart<'static>) -> (content: &'a [u8])
    ensures
        content@ == tag_content(*tag),
{
    tag
}

/// `BytesStart::name` is the part of the tag's content before any white space.
#[verifier::external_body]
fn start_name<'a>(tag: &'a BytesStart<'static>) -> (name: &'a [u8])
    ensures
        name@.len() == tag_name_len(*tag),
        name@ == tag_content(*tag).take(tag_name_len(*tag) as int),
{
    tag.name().into_inner()
}

/// `BytesStart::attributes` yields the attributes of the tag in order. Which
/// ones a tag has is left to the name [`attributes_of`].
#[verifier::external_body]
fn start_attributes(tag: &BytesStart<'static>) -> (attrs: Vec<Option<(Vec<u8>, Vec<u8>)>>)
    ensures
        attrs_view(attrs@) == attributes_of(tag_content(*tag), tag_name_len(*tag)),
{
    tag.attributes()
        .map(|a| a.ok().map(|a| (a.key.as_ref().to_vec(), a.value.into_owned())))
        .collect()
}

/// `quick_xml::escape::unescape` resolves the references in a text, and fails
/// where one is unknown or malformed. A text without `&` holds none. What a
/// reference stands for is left to the name [`resolved`].
#[verifier::external_body]
fn unescape(text: &str) -> (r: Option<String>)
    ensures
        match r {
            Some(s) => resolved(text@) == Some(s@),
            None => resolved(text@) is None,
        },
        !text@.contains('&') ==> r is Some && r->0@ == text@,
{
    quick_xml::escape::unescape(text).ok().map(|s| s.into_owned())
}

/// `memchr::memchr` finds the first place of a byte.
#[verifier::external_body]
fn find_byte(needle: u8, hay: &[u8]) -> (r: Option<usize>)
    ensures
        match r {
            Some(i) => i < hay@.len() && hay@[i as int] == needle && forall|j: int|
                0 <= j < i ==> hay@[j] != needle,
            None => forall|j: int| 0 <= j < hay@.len() ==> hay@[j] != needle,
        },
{
    memchr::memchr(needle, hay)
}

/// The name behind the prefix of a qualified name: what follows its first
/// colon, or all of it.
pub open spec fn local_name(name: Seq<u8>) -> Seq<u8> {
    if exists|i: int| first_colon(name, i) {
        let i = choose|i: int| first_colon(name, i);
        name.skip(i + 1)
    } else {
        name
    }
}

/// The first colon of a name stands at `i`.
pub open spec fn first_colon(name: Seq<u8>, i: int) -> bool {
    0 <= i < name.len() && name[i] == 58 && forall|j: int| 0 <= j < i ==> name[j] != 58
}

/// The local part of a qualified name.
pub(crate) fn local_name_bytes(name: &[u8]) -> (r: &[u8])
    ensures
        r@ == local_name(name@),
{
    let end = name.len();
    match find_byte(58, name) {
        Some(i) => {
            assert(first_colon(name@, i as int));
            assert forall|k: int| #[trigger] first_colon(name@, k) implies k == i by {}
            vstd::slice::slice_subrange(name, i + 1, end)
        },
        None => name,
    }
}

/// A value with its references resolved. Where it is not valid UTF-8, or holds
/// a reference that cannot be resolved, it stays as it is.
pub open spec fn decoded_value(value: Seq<u8>) -> Seq<u8> {
    if valid_utf8(value) && resolved(decode_utf8(value)) is Some {
        encode_utf8(resolved(decode_utf8(value))->0)
    } else {
        value
    }
}

/// The value of the first attribute with the given local name.
pub open spec fn find_attr(attrs: Seq<Option<(Seq<u8>, Seq<u8>)>>, name: Seq<char>) -> Option<
    Seq<u8>,
>
    decreases attrs.len(),
{
    if attrs.len() == 0 {
        None
    } else {
        match attrs[0] {
            Some((key, value)) if local_name(key) == encode_utf8(name) => Some(
                decoded_value(value),
            ),
            _ => find_attr(attrs.skip(1), name),
        }
    }
}

/// The value of a tag's attribute.
pub open spec fn attr_value(tag: TagV, name: Seq<char>) -> Option<Seq<u8>> {
    find_attr(attributes_of(tag.content, tag.name_len), name)
}

/// What a run of raw text contributes to the content of an element: its
/// characters with all references resolved, or nothing where that fails.
pub open spec fn text_content(raw: Seq<u8>) -> Seq<u8> {
    if valid_utf8(raw) && resolved(decode_utf8(raw)) is Some {
        encode_utf8(resolved(decode_utf8(raw))->0)
    } else {
        Seq::empty()
    }
}

/// The empty-element tag `<..../>` with the content of a tag.
pub open spec fn empty_element(tag: TagV) -> Seq<u8> {
    seq![60u8] + tag.content + seq![47u8, 62u8]
}

/// Resolves the references of a text given as bytes.
fn resolve_bytes(raw: &[u8]) -> (r: Option<Vec<u8>>)
    ensures
        match r {
            Some(bytes) => valid_utf8(raw@) && resolved(decode_utf8(raw@)) is Some && bytes@
                == encode_utf8(resolved(decode_utf8(raw@))->0),
            None => !(valid_utf8(raw@) && resolved(decode_utf8(raw@)) is Some),
        },
{
    match utf8_str(raw) {
        Some(text) => match unescape(text) {
            Some(s) => Some(copy_bytes(s.as_str().as_bytes())),
            None => None,
        },
        None => None,
    }
}

/// Appends what a run of raw text contributes to the content of an element.
pub(crate) fn append_text(out: &mut Vec<u8>, raw: &[u8])
    ensures
        final(out)@ == old(out)@ + text_content(raw@),
{
    match resolve_bytes(raw) {
        Some(bytes) => append_bytes(out, bytes.as_slice()),
        None => {
            assert(out@ + Seq::<u8>::empty() =~= out@);
        },
    }
}

impl Tag {
    /// The qualified name of the element.
    pub fn name(&self) -> (name: &[u8])
        ensures
            name@ == self@.name(),
    {
        start_name(&self.start)
    }

    /// The value of the attribute with the given local name.
    pub fn attr(&self, name: &str) -> (r: Option<Vec<u8>>)
        ensures
            match r {
                Some(value) => attr_value(self@, name@) == Some(value@),
                None => attr_value(self@, name@) is None,
            },
    {
        let attrs = start_attributes(&self.start);
        let ghost all = attrs_view(attrs@);
        let mut i: usize = 0;
        assert(all.skip(0) =~= all);
        while i < attrs.len()
            invariant
                all == attrs_view(attrs@),
                all == attributes_of(self@.content, self@.name_len),
                i <= attrs@.len(),
                attr_value(self@, name@) == find_attr(all.skip(i as int), name@),
            decreases attrs@.len() - i,
        {
            let ghost rest = all.skip(i as int);
            assert(rest.skip(1) =~= all.skip(i + 1));
            assert(rest[0] == all[i as int]);
            if let Some((key, value)) = &attrs[i] {
                if same_bytes(local_name_bytes(key.as_slice()), name.as_bytes()) {
                    return match resolve_bytes(value.as_slice()) {
                        Some(bytes) => Some(bytes),
                        None => Some(copy_bytes(value.as_slice())),
                    };
                }
            }
            i = i + 1;
        }
        None
    }

    /// The tag as an element of its own, `<..../>`.
    pub fn to_empty_element(&self) -> (r: Vec<u8>)
        ensures
            r@ == empty_element(self@),
    {
        let mut out: Vec<u8> = Vec::new();
        out.push(60);
        append_bytes(&mut out, start_content(&self.start));
        out.push(47);
        out.push(62);
        assert(out@ =~= empty_element(self@));
        out
    }
}

/// A pass over the events of a document.
pub struct Scanner<'a> {
    reader: Reader<&'a [u8]>,
    buf: Vec<u8>,
    input: &'a [u8],
    base: usize,
    doc: Ghost<DocV>,
    index: Ghost<int>,
}

/// The number of events is bounded by the length of the document.
pub(crate) proof fn lemma_ordered_len(events: Seq<EventAt>, len: nat, i: int)
    requires
        ordered(events, len),
        0 <= i <= events.len(),
    ensures
        i <= pos_at(events, i) <= len,
    decreases i,
{
    if i > 0 {
        lemma_ordered_len(events, len, i - 1);
        if i > 1 {
            assert(events[i - 2].end < events[i - 1].end);
        } else {
            assert(0 < events[0].end);
        }
    }
}

/// Skipping stays within the events.
pub(crate) proof fn lemma_skipped(events: Seq<EventAt>, name: Seq<u8>, depth: nat)
    ensures
        skipped(events, name, depth) <= events.len(),
    decreases events.len(),
{
    if events.len() > 0 {
        lemma_skipped(events.skip(1), name, depth + 1);
        lemma_skipped(events.skip(1), name, depth);
        if depth > 0 {
            lemma_skipped(events.skip(1), name, (depth - 1) as nat);
        }
    }
}

impl<'a> Scanner<'a> {
    /// The document.
    pub closed spec fn doc(self) -> DocV {
        self.doc@
    }

    /// The events of the document.
    pub open spec fn events(self) -> Seq<EventAt> {
        self.doc().events
    }

    /// The number of events that have been read.
    pub closed spec fn index(self) -> int {
        self.index@
    }

    /// The number of events that are still to come.
    pub open spec fn left(self) -> int {
        self.events().len() - self.index()
    }

    pub closed spec fn wf(self) -> bool {
        &&& 0 <= self.index@ <= self.doc@.events.len()
        &&& self.doc@.bytes == self.input@
        &&& self.doc@.base == self.base
        &&& self.base + self.input@.len() <= usize::MAX
        &&& upcoming(self.reader) == self.doc@.events.skip(self.index@)
        &&& position(self.reader) == pos_at(self.doc@.events, self.index@)
        &&& ordered(self.doc@.events, self.input@.len())
    }

    /// What every scanner keeps to.
    pub proof fn lemma_wf(self)
        requires
            self.wf(),
        ensures
            0 <= self.index() <= self.events().len() <= self.doc().bytes.len() <= usize::MAX,
            self.doc().base + self.doc().bytes.len() <= usize::MAX,
            ordered(self.events(), self.doc().bytes.len()),
            forall|i: int|
                #![trigger pos_at(self.events(), i)]
                0 <= i <= self.events().len() ==> pos_at(self.events(), i)
                    <= self.doc().bytes.len(),
            forall|i: int, j: int|
                #![trigger pos_at(self.events(), i), pos_at(self.events(), j)]
                0 <= i <= j <= self.events().len() ==> pos_at(self.events(), i) <= pos_at(
                    self.events(),
                    j,
                ),
    {
        let events = self.doc@.events;
        let len = self.input@.len();
        assert(self.input.len() == len);
        lemma_ordered_len(events, len, events.len() as int);
        assert forall|i: int|
            #![trigger pos_at(self.events(), i)]
            0 <= i <= self.events().len() implies pos_at(self.events(), i)
            <= self.doc().bytes.len() by {
            lemma_ordered_len(events, len, i);
        }
        assert forall|i: int, j: int|
            #![trigger pos_at(self.events(), i), pos_at(self.events(), j)]
            0 <= i <= j <= self.events().len() implies pos_at(self.events(), i) <= pos_at(
            self.events(),
            j,
        ) by {
            if 0 < i < j {
                assert(events[i - 1].end < events[j - 1].end);
            }
        }
    }

    /// Starts at the beginning of a document.
    pub fn new(xml: &'a [u8], check_end_names: bool) -> (s: Self)
        ensures
            s.wf(),
            s.index() == 0,
            s.doc() == (DocV { bytes: xml@, events: xml_events(xml@, check_end_names), base: 0 }),
    {
        let reader = new_reader(xml, check_end_names);
        let ghost events = xml_events(xml@, check_end_names);
        assert(xml.len() == xml@.len());
        assert(events.skip(0) =~= events);
        Scanner {
            reader,
            buf: Vec::new(),
            input: xml,
            base: 0,
            doc: Ghost(DocV { bytes: xml@, events, base: 0 }),
            index: Ghost(0),
        }
    }

    /// Starts at the beginning of a part of a document, which stands at the
    /// offset `base`.
    pub fn part(xml: &'a [u8], base: usize) -> (s: Self)
        requires
            base + xml@.len() <= usize::MAX,
        ensures
            s.wf(),
            s.index() == 0,
            s.doc() == doc_at(xml@, base as nat),
    {
        let s = Scanner::new(xml, true);
        Scanner {
            reader: s.reader,
            buf: s.buf,
            input: xml,
            base,
            doc: Ghost(doc_at(xml@, base as nat)),
            index: Ghost(0),
        }
    }

    /// The offset in the whole document at which this part starts.
    pub fn base(&self) -> (r: usize)
        requires
            self.wf(),
        ensures
            r == self.doc().base,
    {
        self.base
    }

    /// Reads the next event.
    pub fn next(&mut self) -> (e: XmlEvent)
        requires
            old(self).wf(),
        ensures
            final(self).wf(),
            final(self).doc() == old(self).doc(),
            match e.event() {
                None => old(self).index() == old(self).events().len() && final(self).index()
                    == old(self).index(),
                Some(event) => old(self).index() < old(self).events().len() && event == old(
                    self,
                ).events()[old(self).index()].event && final(self).index() == old(self).index()
                    + 1,
            },
    {
        let ghost events = self.doc@.events;
        let e = read_event(&mut self.reader, &mut self.buf);
        proof {
            if self.index@ < events.len() {
                assert(events.skip(self.index@).skip(1) =~= events.skip(self.index@ + 1));
                self.index@ = self.index@ + 1;
            }
        }
        e
    }

    /// Reads to behind the end tag of the element `name`, whose start tag has
    /// just been read.
    pub fn skip_element(&mut self, name: &[u8])
        requires
            old(self).wf(),
        ensures
            final(self).wf(),
            final(self).doc() == old(self).doc(),
            final(self).index() == after_element(old(self).events(), old(self).index(), name@),
            old(self).index() <= final(self).index() <= old(self).events().len(),
    {
        let ghost events = self.doc@.events;
        let ghost rest = events.skip(self.index@);
        let ghost n = skipped(rest, name@, 0) as int;
        proof {
            lemma_skipped(rest, name@, 0);
        }
        read_to_end(&mut self.reader, name, &mut self.buf);
        proof {
            assert(rest.skip(n) =~= events.skip(self.index@ + n));
            if n > 0 {
                assert(rest[n - 1] == events[self.index@ + n - 1]);
            }
            self.index@ = self.index@ + n;
        }
    }

    /// A second scanner that goes on from the same place by itself.
    pub fn fork(&self) -> (s: Self)
        requires
            self.wf(),
        ensures
            s.wf(),
            s.doc() == self.doc(),
            s.index() == self.index(),
    {
        Scanner {
            reader: copy_reader(&self.reader),
            buf: Vec::new(),
            input: self.input,
            base: self.base,
            doc: Ghost(self.doc@),
            index: Ghost(self.index@),
        }
    }

    /// The byte offset at which the pass stands.
    pub fn position(&self) -> (r: usize)
        requires
            self.wf(),
        ensures
            r == pos_at(self.events(), self.index()),
            r <= self.doc().bytes.len(),
    {
        proof {
            self.lemma_wf();
        }
        buffer_position(&self.reader) as usize
    }

    /// The bytes of the document between two offsets.
    pub fn slice(&self, from: usize, to: usize) -> (r: &'a [u8])
        requires
            self.wf(),
            from <= to <= self.doc().bytes.len(),
        ensures
            r@ == self.doc().bytes.subrange(from as int, to as int),
    {
        vstd::slice::slice_subrange(self.input, from, to)
    }
}

} // verus!
