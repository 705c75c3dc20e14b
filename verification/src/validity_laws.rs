//! What holds of every document that is well formed, and of every one that is not.

use vstd::prelude::*;

use crate::engine::{depth_at, fits_outside, open_names, roots_before, well_formed};
use crate::xml::{EventAt, EventV, TagV};

verus! {

/// Whether in events by themselves every tag is closed by its name, and nothing is
/// left open.
pub open spec fn matched(events: Seq<EventAt>) -> bool {
    open_names(events, events.len() as int) == Some(Seq::<Seq<u8>>::empty())
}

proof fn lemma_names_before(a: Seq<EventAt>, b: Seq<EventAt>, i: int)
    requires
        i <= a.len(),
    ensures
        open_names(a + b, i) == open_names(a, i),
        depth_at(a + b, i) == depth_at(a, i),
        roots_before(a + b, i) == roots_before(a, i),
    decreases i,
{
    if i > 0 {
        lemma_names_before(a, b, i - 1);
        assert((a + b)[i - 1] == a[i - 1]);
    }
}

proof fn lemma_names_behind(a: Seq<EventAt>, b: Seq<EventAt>, j: int)
    requires
        0 <= j <= b.len(),
        open_names(a, a.len() as int) is Some,
        open_names(b, j) is Some,
    ensures
        open_names(a + b, a.len() + j) == Some(
            open_names(a, a.len() as int).unwrap() + open_names(b, j).unwrap(),
        ),
    decreases j,
{
    let outer = open_names(a, a.len() as int).unwrap();
    if j > 0 {
        assert(open_names(b, j - 1) is Some);
        lemma_names_behind(a, b, j - 1);
        let inner = open_names(b, j - 1).unwrap();
        assert((a + b)[a.len() + j - 1] == b[j - 1]);
        match b[j - 1].event {
            EventV::Start(tag) => {
                assert((outer + inner).push(tag.name()) =~= outer + inner.push(tag.name()));
            },
            EventV::End(_) => {
                assert((outer + inner).last() == inner.last());
                assert((outer + inner).drop_last() =~= outer + inner.drop_last());
            },
            _ => {},
        }
    } else {
        lemma_names_before(a, b, a.len() as int);
        assert(outer + Seq::<Seq<u8>>::empty() =~= outer);
    }
}

proof fn lemma_depth_behind(a: Seq<EventAt>, b: Seq<EventAt>, j: int)
    requires
        0 <= j <= b.len(),
    ensures
        depth_at(a + b, a.len() + j) == depth_at(a, a.len() as int) + depth_at(b, j),
    decreases j,
{
    if j > 0 {
        lemma_depth_behind(a, b, j - 1);
        assert((a + b)[a.len() + j - 1] == b[j - 1]);
    } else {
        lemma_names_before(a, b, a.len() as int);
    }
}

proof fn lemma_depth_is_open(events: Seq<EventAt>, i: int)
    requires
        0 <= i <= events.len(),
        open_names(events, i) is Some,
    ensures
        depth_at(events, i) == open_names(events, i).unwrap().len(),
    decreases i,
{
    if i > 0 {
        assert(open_names(events, i - 1) is Some);
        lemma_depth_is_open(events, i - 1);
    }
}

proof fn lemma_open_so_far(events: Seq<EventAt>, i: int, j: int)
    requires
        0 <= i <= j,
        open_names(events, j) is Some,
    ensures
        open_names(events, i) is Some,
    decreases j - i,
{
    if i < j {
        assert(open_names(events, j - 1) is Some);
        lemma_open_so_far(events, i, j - 1);
    }
}

proof fn lemma_roots_behind(a: Seq<EventAt>, b: Seq<EventAt>, j: int)
    requires
        0 <= j <= b.len(),
        depth_at(a, a.len() as int) == 0,
    ensures
        roots_before(a + b, a.len() + j) == roots_before(a, a.len() as int) + roots_before(b, j),
    decreases j,
{
    if j > 0 {
        lemma_roots_behind(a, b, j - 1);
        lemma_depth_behind(a, b, j - 1);
        assert((a + b)[a.len() + j - 1] == b[j - 1]);
    } else {
        lemma_names_before(a, b, a.len() as int);
    }
}

proof fn lemma_no_roots_inside(a: Seq<EventAt>, b: Seq<EventAt>, j: int)
    requires
        0 <= j <= b.len(),
        depth_at(a, a.len() as int) > 0,
        open_names(b, j) is Some,
    ensures
        roots_before(a + b, a.len() + j) == roots_before(a, a.len() as int),
    decreases j,
{
    if j > 0 {
        assert(open_names(b, j - 1) is Some);
        lemma_no_roots_inside(a, b, j - 1);
        lemma_depth_behind(a, b, j - 1);
        lemma_depth_is_open(b, j - 1);
    } else {
        lemma_names_before(a, b, a.len() as int);
    }
}

/// Whether an event opens or closes nothing.
pub open spec fn no_tag(e: EventAt) -> bool {
    !(e.event is Start) && !(e.event is End)
}

/// An element around what is matched.
pub open spec fn around(open: EventAt, content: Seq<EventAt>, close: EventAt) -> Seq<EventAt> {
    seq![open] + content + seq![close]
}

/// Tags match as in any XML: nothing is matched, and so is any event that is no
/// start or end tag; what is matched stays so next to what is; and a start tag and
/// an end tag around it match exactly where they have one name. A start tag or an
/// end tag alone does not match.
pub proof fn law_tags_match_by_name(
    a: Seq<EventAt>,
    b: Seq<EventAt>,
    e: EventAt,
    open: EventAt,
    tag: TagV,
    close: EventAt,
    name: Seq<u8>,
)
    requires
        matched(a),
        open.event == EventV::Start(tag),
        close.event == EventV::End(name),
    ensures
        matched(Seq::empty()),
        matched(seq![e]) <==> no_tag(e),
        matched(b) ==> matched(a + b),
        matched(around(open, a, close)) <==> tag.name() == name,
        !matched(seq![open] + a),
        !matched(a + seq![close]),
{
    let none = Seq::<EventAt>::empty();
    assert(open_names(none, 0) == Some(Seq::<Seq<u8>>::empty()));
    lemma_single(e);
    lemma_single(open);
    assert(Seq::<Seq<u8>>::empty() + Seq::<Seq<u8>>::empty() =~= Seq::empty());
    if matched(b) {
        lemma_names_behind(a, b, b.len() as int);
        assert((a + b).len() == a.len() + b.len());
    }
    let opened = seq![open];
    lemma_names_behind(opened, a, a.len() as int);
    let inner = opened + a;
    let stack = Seq::<Seq<u8>>::empty().push(tag.name());
    assert(stack + Seq::<Seq<u8>>::empty() =~= stack);
    assert(inner.len() == 1 + a.len());
    assert(open_names(inner, inner.len() as int) == Some(stack));
    assert(stack.len() == 1);
    let whole = around(open, a, close);
    let n = inner.len() as int;
    assert(whole =~= inner + seq![close]);
    lemma_names_before(inner, seq![close], n);
    assert(whole[n] == close);
    assert(stack.last() == tag.name());
    assert(stack.drop_last() =~= Seq::empty());
    assert(open_names(whole, n + 1) == if tag.name() == name {
        Some(stack.drop_last())
    } else {
        None
    });
    let ended = a + seq![close];
    lemma_names_before(a, seq![close], a.len() as int);
    assert(ended[a.len() as int] == close);
    assert(ended.len() == a.len() + 1);
    assert(open_names(ended, ended.len() as int) is None);
}

proof fn lemma_single(e: EventAt)
    ensures
        matched(seq![e]) <==> no_tag(e),
        e.event matches EventV::Start(tag) ==> open_names(seq![e], 1) == Some(
            Seq::<Seq<u8>>::empty().push(tag.name()),
        ),
{
    let s = seq![e];
    assert(open_names(s, 0) == Some(Seq::<Seq<u8>>::empty()));
    if let EventV::Start(tag) = e.event {
        assert(Seq::<Seq<u8>>::empty().push(tag.name()).len() == 1);
    }
}

/// Whether an event can stand beside the root element: no tag, nothing that the
/// parser refuses, and no text but white space.
pub open spec fn beside_root(e: EventAt) -> bool {
    &&& !(e.event is Start)
    &&& !(e.event is Empty)
    &&& !(e.event is End)
    &&& !(e.event is Error)
    &&& fits_outside(e.event)
}

proof fn lemma_beside_root(events: Seq<EventAt>, i: int)
    requires
        0 <= i <= events.len(),
        forall|k: int| 0 <= k < events.len() ==> beside_root(#[trigger] events[k]),
    ensures
        depth_at(events, i) == 0,
        roots_before(events, i) == 0,
        open_names(events, i) == Some(Seq::<Seq<u8>>::empty()),
    decreases i,
{
    if i > 0 {
        lemma_beside_root(events, i - 1);
        assert(beside_root(events[i - 1]));
    }
}

/// A document is well formed that has one element around content in which tags
/// match, and beside it nothing but what can stand there; it is not where the
/// element is closed by another name.
pub proof fn law_one_root_is_well_formed(
    before: Seq<EventAt>,
    open: EventAt,
    tag: TagV,
    content: Seq<EventAt>,
    close: EventAt,
    name: Seq<u8>,
    behind: Seq<EventAt>,
)
    requires
        forall|k: int| 0 <= k < before.len() ==> beside_root(#[trigger] before[k]),
        forall|k: int| 0 <= k < behind.len() ==> beside_root(#[trigger] behind[k]),
        open.event == EventV::Start(tag),
        close.event == EventV::End(name),
        matched(content),
        forall|k: int| 0 <= k < content.len() ==> (#[trigger] content[k]).event !is Error,
    ensures
        well_formed(before + around(open, content, close) + behind) <==> tag.name() == name,
{
    let root = around(open, content, close);
    let front = before + root;
    let all = front + behind;
    let b = before.len() as int;
    let r = root.len() as int;
    lemma_beside_root(before, b);
    lemma_beside_root(behind, behind.len() as int);
    law_tags_match_by_name(content, content, open, open, tag, close, name);
    let none = Seq::<Seq<u8>>::empty();
    assert(none + none =~= none);
    if tag.name() == name {
        lemma_names_behind(before, root, r);
        assert(open_names(front, front.len() as int) == Some(none));
        lemma_names_behind(front, behind, behind.len() as int);
        assert(matched(all));
        lemma_root_counts(open, tag, content, close);
        lemma_depth_is_open(root, r);
        lemma_roots_behind(before, root, r);
        lemma_depth_behind(before, root, r);
        lemma_roots_behind(front, behind, behind.len() as int);
        assert(roots_before(all, all.len() as int) == 1);
        assert forall|i: int| 0 <= i < all.len() implies (#[trigger] all[i]).event !is Error && (
        depth_at(all, i) == 0 ==> fits_outside(all[i].event)) by {
            if i < b {
                assert(all[i] == before[i]);
                assert(beside_root(before[i]));
            } else if i < b + r {
                let k = i - b;
                assert(all[i] == root[k]);
                lemma_names_before(front, behind, i);
                lemma_depth_behind(before, root, k);
                if k == 0 {
                } else if k < r - 1 {
                    assert(root[k] == content[k - 1]);
                    lemma_inside_root(open, tag, content, close, k);
                }
            } else {
                assert(all[i] == behind[i - b - r]);
                assert(beside_root(behind[i - b - r]));
            }
        }
    } else {
        // The end tag of another name leaves no stack of names behind it.
        let inner = before + (seq![open] + content);
        lemma_single(open);
        lemma_names_behind(seq![open], content, content.len() as int);
        let stack = none.push(tag.name());
        assert(stack + none =~= stack);
        lemma_names_behind(before, seq![open] + content, 1 + content.len() as int);
        assert(none + stack =~= stack);
        let n = inner.len() as int;
        let rest = seq![close] + behind;
        assert(all =~= inner + rest);
        lemma_names_before(inner, rest, n);
        assert(all[n] == close);
        assert(open_names(all, n) == Some(stack));
        assert(stack.last() == tag.name());
        assert(open_names(all, n + 1) is None);
        if open_names(all, all.len() as int) is Some {
            lemma_open_so_far(all, n + 1, all.len() as int);
        }
    }
}

proof fn lemma_inside_root(open: EventAt, tag: TagV, content: Seq<EventAt>, close: EventAt, k: int)
    requires
        open.event == EventV::Start(tag),
        matched(content),
        0 < k <= 1 + content.len(),
    ensures
        depth_at(around(open, content, close), k) > 0,
{
    let opened = seq![open];
    let inner = opened + content;
    assert(around(open, content, close) =~= inner + seq![close]);
    lemma_names_before(inner, seq![close], k);
    lemma_depth_behind(opened, content, k - 1);
    lemma_single(open);
    lemma_depth_is_open(opened, 1);
    lemma_open_so_far(content, k - 1, content.len() as int);
    lemma_depth_is_open(content, k - 1);
}

proof fn lemma_root_counts(open: EventAt, tag: TagV, content: Seq<EventAt>, close: EventAt)
    requires
        open.event == EventV::Start(tag),
        close.event is End,
        matched(content),
    ensures
        ({
            let root = around(open, content, close);
            roots_before(root, root.len() as int) == 1
        }),
{
    let root = around(open, content, close);
    let opened = seq![open];
    let inner = opened + content;
    let n = inner.len() as int;
    assert(root =~= inner + seq![close]);
    lemma_names_before(inner, seq![close], n);
    lemma_single(open);
    lemma_depth_is_open(opened, 1);
    lemma_no_roots_inside(opened, content, content.len() as int);
    assert(depth_at(opened, 0) == 0);
    assert(roots_before(opened, 0) == 0);
    assert(roots_before(opened, 1) == 1);
    assert(root[n] == close);
    assert(roots_before(root, n + 1) == roots_before(root, n));
}

/// Whether events hold an element.
pub open spec fn has_element(events: Seq<EventAt>) -> bool {
    exists|k: int|
        0 <= k < events.len() && (#[trigger] events[k].event is Start || events[k].event is Empty)
}

proof fn lemma_element_is_root(events: Seq<EventAt>, k: int, n: int)
    requires
        0 <= k < n <= events.len(),
        events[k].event is Start || events[k].event is Empty,
        open_names(events, n) is Some,
    ensures
        roots_before(events, n) > 0,
    decreases n,
{
    if n - 1 > k {
        assert(open_names(events, n - 1) is Some);
        lemma_element_is_root(events, k, n - 1);
    } else {
        lemma_rooted(events, k);
    }
}

proof fn lemma_rooted(events: Seq<EventAt>, k: int)
    requires
        0 <= k < events.len(),
        events[k].event is Start || events[k].event is Empty,
        open_names(events, k) is Some,
    ensures
        roots_before(events, k + 1) > 0,
    decreases k,
{
    lemma_depth_is_open(events, k);
    if depth_at(events, k) > 0 {
        lemma_opener(events, k);
    }
}

proof fn lemma_opener(events: Seq<EventAt>, k: int)
    requires
        0 <= k <= events.len(),
        open_names(events, k) is Some,
        depth_at(events, k) > 0,
    ensures
        roots_before(events, k) > 0,
    decreases k,
{
    if k > 0 {
        assert(open_names(events, k - 1) is Some);
        lemma_depth_is_open(events, k - 1);
        if depth_at(events, k - 1) > 0 {
            lemma_opener(events, k - 1);
        }
    }
}

/// A document is not well formed without an element, with two beside each other,
/// with tags that do not match, with anything that the parser refuses, or with text
/// beside its root.
pub proof fn law_what_is_not_well_formed(a: Seq<EventAt>, b: Seq<EventAt>, k: int)
    ensures
        !has_element(a) ==> !well_formed(a),
        matched(a) && matched(b) && has_element(a) && has_element(b) ==> !well_formed(a + b),
        !matched(a) ==> !well_formed(a),
        0 <= k < a.len() && a[k].event is Error ==> !well_formed(a),
        0 <= k < a.len() && depth_at(a, k) == 0 && !fits_outside(a[k].event) ==> !well_formed(a),
{
    if !has_element(a) {
        lemma_no_element(a, a.len() as int);
    }
    if matched(a) && matched(b) && has_element(a) && has_element(b) {
        let i = choose|i: int|
            0 <= i < a.len() && (#[trigger] a[i].event is Start || a[i].event is Empty);
        let j = choose|j: int|
            0 <= j < b.len() && (#[trigger] b[j].event is Start || b[j].event is Empty);
        lemma_element_is_root(a, i, a.len() as int);
        lemma_element_is_root(b, j, b.len() as int);
        lemma_depth_is_open(a, a.len() as int);
        lemma_roots_behind(a, b, b.len() as int);
        assert((a + b).len() == a.len() + b.len());
    }
}

proof fn lemma_no_element(events: Seq<EventAt>, i: int)
    requires
        0 <= i <= events.len(),
        !has_element(events),
    ensures
        roots_before(events, i) == 0,
    decreases i,
{
    if i > 0 {
        lemma_no_element(events, i - 1);
        assert(!(events[i - 1].event is Start || events[i - 1].event is Empty));
    }
}

/// Beside the root text is white space as XML has it, space, tab, line feed and
/// carriage return, and a CDATA section cannot stand there; of anything else only
/// tags are told apart there.
pub proof fn law_only_white_space_beside_the_root(event: EventV)
    ensures
        match event {
            EventV::Text(raw) => fits_outside(event) <==> forall|i: int|
                0 <= i < raw.len() ==> seq![' ' as u8, '\t' as u8, '\n' as u8, '\r' as u8].contains(
                    #[trigger] raw[i],
                ),
            EventV::CData(_) => !fits_outside(event),
            _ => fits_outside(event),
        },
{
    if let EventV::Text(raw) = event {
        let white = seq![' ' as u8, '\t' as u8, '\n' as u8, '\r' as u8];
        assert(white[0] == 0x20 && white[1] == 0x09 && white[2] == 0x0a && white[3] == 0x0d);
        assert forall|b: u8| #[trigger] white.contains(b) <==> (b == 0x20 || b == 0x09 || b == 0x0a
            || b == 0x0d) by {
            if b == 0x20 {
                assert(white[0] == b);
            } else if b == 0x09 {
                assert(white[1] == b);
            } else if b == 0x0a {
                assert(white[2] == b);
            } else if b == 0x0d {
                assert(white[3] == b);
            }
        }
        if forall|i: int| 0 <= i < raw.len() ==> white.contains(#[trigger] raw[i]) {
            assert forall|i: int| 0 <= i < raw.len() implies (#[trigger] raw[i] == 0x20 || raw[i]
                == 0x09 || raw[i] == 0x0a || raw[i] == 0x0d) by {
                assert(white.contains(raw[i]));
            }
        }
        if fits_outside(event) {
            assert forall|i: int| 0 <= i < raw.len() implies white.contains(#[trigger] raw[i]) by {
                assert(raw[i] == 0x20 || raw[i] == 0x09 || raw[i] == 0x0a || raw[i] == 0x0d);
            }
        }
    }
}

} // verus!
