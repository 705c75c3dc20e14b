//! What holds of the content of elements: which elements are children, which
//! lie inside at any depth, and which text there is.

use vstd::prelude::*;
use vstd::utf8::encode_utf8;

use crate::engine::depth_at;
use crate::laws::{everywhere, law_skipping_leaves_the_element, siblings};
use crate::number::ReadingsV;
use crate::path::StepV;
use crate::result::{children, has_child, SpanV};
use crate::semantics::{
    after, child_text, closed_by_name, closes, element_text, enter, first_tag, hits, in_empty,
    nothing, scope_end, scope_text, tidy, FoundV, ItemV,
};
use crate::wildcard::{lemma_no_escape, MatcherV};
use crate::xml::{
    attr_value, doc_of, empty_element, local_name, place_at, pos_at, text_content, DocV, EventAt,
    EventV, TagV,
};

verus! {

/// Whether the event `m` lies inside the element whose start tag is the event
/// `k`: from there to `m` the element is open.
pub open spec fn inside(events: Seq<EventAt>, k: int, m: int) -> bool {
    &&& k < m
    &&& forall|p: int| k < p <= m ==> #[trigger] depth_at(events, p) > depth_at(events, k)
}

proof fn lemma_scope_depths(events: Seq<EventAt>, i: int, depth: nat)
    requires
        closes(events, i, depth),
        depth >= 1,
    ensures
        ({
            let e = scope_end(events, i, depth);
            &&& 0 <= i < e <= events.len()
            &&& events[e - 1].event is End
            &&& depth_at(events, e) == depth_at(events, i) - depth
            &&& forall|p: int|
                i <= p < e ==> #[trigger] depth_at(events, p) > depth_at(events, i) - depth
        }),
    decreases events.len() - i,
{
    let step = depth_at(events, i + 1);
    match events[i].event {
        EventV::Start(_) => {
            lemma_scope_depths(events, i + 1, depth + 1);
        },
        EventV::End(_) => {
            if depth > 1 {
                lemma_scope_depths(events, i + 1, (depth - 1) as nat);
            }
        },
        _ => {
            lemma_scope_depths(events, i + 1, depth);
        },
    }
}

/// In a tidy document reading goes on behind the end tag of an element: that
/// carries the name of its start tag, and exactly the events before it, behind
/// the start tag, lie inside the element.
pub proof fn law_element_ends_with_its_end_tag(events: Seq<EventAt>, k: int, tag: TagV)
    requires
        tidy(events),
        0 <= k < events.len(),
        events[k].event == EventV::Start(tag),
    ensures
        ({
            let e = after(events, k, tag) - 1;
            &&& k < e < events.len()
            &&& events[e].event == EventV::End(tag.name())
            &&& depth_at(events, e + 1) == depth_at(events, k)
            &&& forall|m: int| 0 <= m <= events.len() ==> (#[trigger] inside(events, k, m) <==> k < m <= e)
        }),
{
    law_skipping_leaves_the_element(events, k, tag);
    assert(closed_by_name(events, k, tag));
    lemma_scope_depths(events, k + 1, 1);
    let e = scope_end(events, k + 1, 1) - 1;
    assert(depth_at(events, k + 1) == depth_at(events, k) + 1);
    assert forall|m: int| 0 <= m <= events.len() implies (#[trigger] inside(events, k, m) <==> k < m
        <= e) by {
        if inside(events, k, m) && m > e {
            assert(depth_at(events, e + 1) > depth_at(events, k));
        }
        if k < m <= e {
            assert forall|p: int| k < p <= m implies #[trigger] depth_at(events, p) > depth_at(
                events,
                k,
            ) by {}
        }
    }
}

/// Whether the event `m` is a tag of the scope that the event `i` stands in, at
/// the same depth.
pub open spec fn beside(events: Seq<EventAt>, i: int, m: int) -> bool {
    &&& within_scope(events, i, m)
    &&& depth_at(events, m) == depth_at(events, i)
}

/// Whether the event `m` is a tag of the scope that the event `i` stands in, at
/// that depth or deeper.
pub open spec fn within_scope(events: Seq<EventAt>, i: int, m: int) -> bool {
    &&& i <= m < events.len()
    &&& events[m].event is Start || events[m].event is Empty
    &&& forall|p: int| i <= p <= m ==> #[trigger] depth_at(events, p) >= depth_at(events, i)
}

/// Whether events come in the order of the document.
pub open spec fn rising(ks: Seq<int>) -> bool {
    forall|j: int, m: int| 0 <= j < m < ks.len() ==> #[trigger] ks[j] < #[trigger] ks[m]
}

/// The tag of an element, whether it is empty or not.
pub open spec fn tag_of(events: Seq<EventAt>, k: int) -> TagV {
    match events[k].event {
        EventV::Start(tag) => tag,
        EventV::Empty(tag) => tag,
        _ => TagV { content: Seq::empty(), name_len: 0 },
    }
}

/// A scope goes on behind an event as it went on before it.
proof fn lemma_scope_step(events: Seq<EventAt>, i: int, j: int)
    requires
        0 <= i < j <= events.len(),
        depth_at(events, j) == depth_at(events, i),
        forall|p: int| i < p < j ==> #[trigger] depth_at(events, p) > depth_at(events, i),
    ensures
        forall|m: int|
            m >= j ==> (#[trigger] within_scope(events, i, m) <==> within_scope(events, j, m)),
        forall|m: int| m >= j ==> (#[trigger] beside(events, i, m) <==> beside(events, j, m)),
        forall|m: int| i < m < j ==> !#[trigger] beside(events, i, m),
{
    assert forall|m: int| m >= j implies (#[trigger] within_scope(events, i, m) <==> within_scope(
        events,
        j,
        m,
    )) by {
        if within_scope(events, j, m) {
            assert forall|p: int| i <= p <= m implies #[trigger] depth_at(events, p) >= depth_at(
                events,
                i,
            ) by {
                if p >= j {
                    assert(depth_at(events, p) >= depth_at(events, j));
                }
            }
        }
    }
    assert forall|m: int| m >= j implies (#[trigger] beside(events, i, m) <==> beside(
        events,
        j,
        m,
    )) by {
        assert(within_scope(events, i, m) <==> within_scope(events, j, m));
    }
}

proof fn lemma_element_step(events: Seq<EventAt>, i: int, tag: TagV)
    requires
        tidy(events),
        0 <= i < events.len(),
        events[i].event == EventV::Start(tag),
    ensures
        ({
            let j = after(events, i, tag);
            &&& i + 1 < j <= events.len()
            &&& depth_at(events, j) == depth_at(events, i)
            &&& forall|p: int| i < p < j ==> #[trigger] depth_at(events, p) > depth_at(events, i)
            &&& depth_at(events, i + 1) == depth_at(events, i) + 1
        }),
{
    law_element_ends_with_its_end_tag(events, i, tag);
    let j = after(events, i, tag);
    assert forall|p: int| i < p < j implies #[trigger] depth_at(events, p) > depth_at(events, i) by {
        assert(inside(events, i, j - 1));
    }
    let d = depth_at(events, i + 1);
}

proof fn lemma_end_step(events: Seq<EventAt>, i: int)
    requires
        0 <= i < events.len(),
        events[i].event is End,
    ensures
        forall|m: int| !#[trigger] within_scope(events, i, m),
{
    assert forall|m: int| !#[trigger] within_scope(events, i, m) by {
        if within_scope(events, i, m) {
            assert(m > i);
            assert(depth_at(events, i + 1) >= depth_at(events, i));
        }
    }
}

/// The elements among siblings that a name matches are exactly the tags beside
/// the first of them, in the scope they stand in, whose names it matches, in the
/// order of the document.
pub proof fn law_siblings_are_the_tags_beside(d: DocV, i: int, name: MatcherV)
    requires
        tidy(d.events),
        0 <= i <= d.events.len(),
    ensures
        rising(siblings(d, i, name)),
        forall|m: int| #[trigger]
            siblings(d, i, name).contains(m) <==> beside(d.events, i, m) && hits(
                name,
                tag_of(d.events, m),
            ),
    decreases d.events.len() - i,
{
    let events = d.events;
    let ks = siblings(d, i, name);
    if i < events.len() {
        assert(events[i].event !is Error);
        match events[i].event {
            EventV::Start(tag) => {
                let j = after(events, i, tag);
                lemma_element_step(events, i, tag);
                lemma_scope_step(events, i, j);
                law_siblings_are_the_tags_beside(d, j, name);
                lemma_one_more_sibling(d, i, j, tag, name, siblings(d, j, name), ks);
            },
            EventV::Empty(tag) => {
                let step = depth_at(events, i + 1);
                lemma_scope_step(events, i, i + 1);
                law_siblings_are_the_tags_beside(d, i + 1, name);
                lemma_one_more_sibling(d, i, i + 1, tag, name, siblings(d, i + 1, name), ks);
            },
            EventV::End(_) => {
                lemma_end_step(events, i);
                assert forall|m: int| #[trigger] ks.contains(m) <==> beside(events, i, m) && hits(
                    name,
                    tag_of(events, m),
                ) by {
                    assert(!within_scope(events, i, m));
                }
            },
            _ => {
                let step = depth_at(events, i + 1);
                lemma_scope_step(events, i, i + 1);
                law_siblings_are_the_tags_beside(d, i + 1, name);
                assert forall|m: int| #[trigger] ks.contains(m) <==> beside(events, i, m) && hits(
                    name,
                    tag_of(events, m),
                ) by {
                    if m >= i + 1 {
                        assert(beside(events, i, m) <==> beside(events, i + 1, m));
                    }
                }
            },
        }
    }
}

proof fn lemma_one_more_sibling(
    d: DocV,
    i: int,
    j: int,
    tag: TagV,
    name: MatcherV,
    rest: Seq<int>,
    ks: Seq<int>,
)
    requires
        0 <= i < j <= d.events.len(),
        d.events[i].event == EventV::Start(tag) || d.events[i].event == EventV::Empty(tag),
        rising(rest),
        forall|m: int| #[trigger]
            rest.contains(m) <==> beside(d.events, j, m) && hits(name, tag_of(d.events, m)),
        forall|m: int| m >= j ==> (#[trigger] beside(d.events, i, m) <==> beside(d.events, j, m)),
        forall|m: int| i < m < j ==> !#[trigger] beside(d.events, i, m),
        ks == if hits(name, tag) {
            seq![i] + rest
        } else {
            rest
        },
    ensures
        rising(ks),
        forall|m: int| #[trigger]
            ks.contains(m) <==> beside(d.events, i, m) && hits(name, tag_of(d.events, m)),
{
    let events = d.events;
    assert(beside(events, i, i));
    assert forall|n: int| 0 <= n < rest.len() implies #[trigger] rest[n] >= j by {
        assert(rest.contains(rest[n]));
    }
    if hits(name, tag) {
        assert forall|a: int, b: int| 0 <= a < b < ks.len() implies #[trigger] ks[a]
            < #[trigger] ks[b] by {
            assert(ks[b] == rest[b - 1]);
            if a > 0 {
                assert(ks[a] == rest[a - 1]);
            }
        }
    }
    assert forall|m: int| #[trigger] ks.contains(m) <==> beside(events, i, m) && hits(
        name,
        tag_of(events, m),
    ) by {
        if ks.contains(m) {
            let n = choose|n: int| 0 <= n < ks.len() && ks[n] == m;
            if hits(name, tag) && n == 0 {
            } else {
                let q = if hits(name, tag) {
                    n - 1
                } else {
                    n
                };
                assert(rest[q] == m);
                assert(rest.contains(m));
            }
        }
        if beside(events, i, m) && hits(name, tag_of(events, m)) {
            if m == i {
                assert(ks[0] == i);
            } else {
                assert(m >= j);
                assert(rest.contains(m));
                let n = choose|n: int| 0 <= n < rest.len() && rest[n] == m;
                let q = if hits(name, tag) {
                    n + 1
                } else {
                    n
                };
                assert(ks[q] == m);
            }
        }
    }
}

/// The elements at any depth that a name matches are exactly the tags of the
/// scope, at its depth or deeper, whose names it matches, in the order of the
/// document.
pub proof fn law_descendants_are_the_tags_inside(d: DocV, i: int, name: MatcherV)
    requires
        tidy(d.events),
        0 <= i <= d.events.len(),
    ensures
        rising(everywhere(d, i, name)),
        forall|m: int| #[trigger]
            everywhere(d, i, name).contains(m) <==> within_scope(d.events, i, m) && hits(
                name,
                tag_of(d.events, m),
            ),
    decreases d.events.len() - i,
{
    let events = d.events;
    let ks = everywhere(d, i, name);
    if i < events.len() {
        assert(events[i].event !is Error);
        match events[i].event {
            EventV::Start(tag) => {
                let j = after(events, i, tag);
                let inner = everywhere(d, i + 1, name);
                let later = everywhere(d, j, name);
                lemma_element_step(events, i, tag);
                lemma_scope_step(events, i, j);
                law_descendants_are_the_tags_inside(d, i + 1, name);
                law_descendants_are_the_tags_inside(d, j, name);
                assert forall|m: int| i < m implies (#[trigger] within_scope(events, i, m) <==> (
                within_scope(events, i + 1, m) || within_scope(events, j, m))) by {
                    lemma_inner_scope(events, i, j, m);
                }
                lemma_joined(d, i, name, inner, later, j);
                lemma_front(d, i, tag, name, inner + later, ks);
            },
            EventV::Empty(tag) => {
                let step = depth_at(events, i + 1);
                lemma_scope_step(events, i, i + 1);
                law_descendants_are_the_tags_inside(d, i + 1, name);
                let rest = everywhere(d, i + 1, name);
                assert forall|m: int| #[trigger] rest.contains(m) <==> m > i && within_scope(
                    events,
                    i,
                    m,
                ) && hits(name, tag_of(events, m)) by {
                    if m >= i + 1 {
                        assert(within_scope(events, i, m) <==> within_scope(events, i + 1, m));
                    }
                }
                lemma_front(d, i, tag, name, rest, ks);
            },
            EventV::End(_) => {
                lemma_end_step(events, i);
                assert forall|m: int| #[trigger] ks.contains(m) <==> within_scope(events, i, m)
                    && hits(name, tag_of(events, m)) by {
                    assert(!within_scope(events, i, m));
                }
            },
            _ => {
                let step = depth_at(events, i + 1);
                lemma_scope_step(events, i, i + 1);
                law_descendants_are_the_tags_inside(d, i + 1, name);
                assert forall|m: int| #[trigger] ks.contains(m) <==> within_scope(events, i, m)
                    && hits(name, tag_of(events, m)) by {
                    if m >= i + 1 {
                        assert(within_scope(events, i, m) <==> within_scope(events, i + 1, m));
                    }
                }
            },
        }
    }
}

proof fn lemma_inner_scope(events: Seq<EventAt>, i: int, j: int, m: int)
    requires
        0 <= i,
        i + 1 < j <= events.len(),
        i < m,
        depth_at(events, j) == depth_at(events, i),
        depth_at(events, i + 1) == depth_at(events, i) + 1,
        forall|p: int| i < p < j ==> #[trigger] depth_at(events, p) > depth_at(events, i),
    ensures
        within_scope(events, i, m) <==> (within_scope(events, i + 1, m) || within_scope(
            events,
            j,
            m,
        )),
        within_scope(events, i + 1, m) ==> m < j,
{
    if within_scope(events, i + 1, m) {
        if m >= j {
            assert(depth_at(events, j) >= depth_at(events, i + 1));
        }
        assert forall|p: int| i <= p <= m implies #[trigger] depth_at(events, p) >= depth_at(
            events,
            i,
        ) by {}
    }
    if within_scope(events, j, m) {
        assert forall|p: int| i <= p <= m implies #[trigger] depth_at(events, p) >= depth_at(
            events,
            i,
        ) by {
            if p >= j {
                assert(depth_at(events, p) >= depth_at(events, j));
            }
        }
    }
    if within_scope(events, i, m) {
        if m < j {
            assert forall|p: int| i + 1 <= p <= m implies #[trigger] depth_at(events, p)
                >= depth_at(events, i + 1) by {}
        } else {
            assert forall|p: int| j <= p <= m implies #[trigger] depth_at(events, p) >= depth_at(
                events,
                j,
            ) by {}
        }
    }
}

proof fn lemma_joined(
    d: DocV,
    i: int,
    name: MatcherV,
    inner: Seq<int>,
    later: Seq<int>,
    j: int,
)
    requires
        0 <= i,
        i + 1 < j <= d.events.len(),
        depth_at(d.events, j) == depth_at(d.events, i),
        depth_at(d.events, i + 1) == depth_at(d.events, i) + 1,
        forall|p: int| i < p < j ==> #[trigger] depth_at(d.events, p) > depth_at(d.events, i),
        rising(inner),
        rising(later),
        forall|m: int| #[trigger]
            inner.contains(m) <==> within_scope(d.events, i + 1, m) && hits(
                name,
                tag_of(d.events, m),
            ),
        forall|m: int| #[trigger]
            later.contains(m) <==> within_scope(d.events, j, m) && hits(name, tag_of(d.events, m)),
    ensures
        rising(inner + later),
        forall|m: int| #[trigger]
            (inner + later).contains(m) <==> m > i && within_scope(d.events, i, m) && hits(
                name,
                tag_of(d.events, m),
            ),
{
    let all = inner + later;
    let n = inner.len() as int;
    assert forall|a: int| 0 <= a < n implies #[trigger] inner[a] < j by {
        assert(inner.contains(inner[a]));
        lemma_inner_scope(d.events, i, j, inner[a]);
    }
    assert forall|a: int| 0 <= a < later.len() implies #[trigger] later[a] >= j by {
        assert(later.contains(later[a]));
    }
    assert forall|a: int, b: int| 0 <= a < b < all.len() implies #[trigger] all[a]
        < #[trigger] all[b] by {
        if b < n {
            assert(inner[a] < inner[b]);
        } else if a < n {
            assert(inner[a] < j);
            assert(later[b - n] >= j);
        } else {
            assert(later[a - n] < later[b - n]);
        }
    }
    assert forall|m: int| #[trigger] all.contains(m) <==> m > i && within_scope(d.events, i, m)
        && hits(name, tag_of(d.events, m)) by {
        if m > i {
            lemma_inner_scope(d.events, i, j, m);
        }
        if all.contains(m) {
            let a = choose|a: int| 0 <= a < all.len() && all[a] == m;
            if a < n {
                assert(inner[a] == m);
                assert(inner.contains(m));
            } else {
                assert(later[a - n] == m);
                assert(later.contains(m));
            }
        }
        if inner.contains(m) {
            let a = choose|a: int| 0 <= a < n && inner[a] == m;
            assert(all[a] == m);
        }
        if later.contains(m) {
            let a = choose|a: int| 0 <= a < later.len() && later[a] == m;
            assert(all[a + n] == m);
        }
    }
}

proof fn lemma_front(d: DocV, i: int, tag: TagV, name: MatcherV, rest: Seq<int>, ks: Seq<int>)
    requires
        0 <= i < d.events.len(),
        d.events[i].event == EventV::Start(tag) || d.events[i].event == EventV::Empty(tag),
        rising(rest),
        forall|m: int| #[trigger]
            rest.contains(m) <==> m > i && within_scope(d.events, i, m) && hits(
                name,
                tag_of(d.events, m),
            ),
        ks == if hits(name, tag) {
            seq![i] + rest
        } else {
            rest
        },
    ensures
        rising(ks),
        forall|m: int| #[trigger]
            ks.contains(m) <==> within_scope(d.events, i, m) && hits(name, tag_of(d.events, m)),
{
    assert(within_scope(d.events, i, i));
    assert forall|n: int| 0 <= n < rest.len() implies #[trigger] rest[n] > i by {
        assert(rest.contains(rest[n]));
    }
    if hits(name, tag) {
        assert forall|a: int, b: int| 0 <= a < b < ks.len() implies #[trigger] ks[a]
            < #[trigger] ks[b] by {
            assert(ks[b] == rest[b - 1]);
            if a > 0 {
                assert(ks[a] == rest[a - 1]);
            }
        }
    }
    assert forall|m: int| #[trigger] ks.contains(m) <==> within_scope(d.events, i, m) && hits(
        name,
        tag_of(d.events, m),
    ) by {
        if ks.contains(m) {
            let n = choose|n: int| 0 <= n < ks.len() && ks[n] == m;
            if hits(name, tag) && n == 0 {
            } else {
                let q = if hits(name, tag) {
                    n - 1
                } else {
                    n
                };
                assert(rest[q] == m);
                assert(rest.contains(m));
            }
        }
        if within_scope(d.events, i, m) && hits(name, tag_of(d.events, m)) {
            if m == i {
                assert(ks[0] == i);
            } else {
                assert(rest.contains(m));
                let n = choose|n: int| 0 <= n < rest.len() && rest[n] == m;
                let q = if hits(name, tag) {
                    n + 1
                } else {
                    n
                };
                assert(ks[q] == m);
            }
        }
    }
}

/// The bytes that an element covers, under its name: from before its tag to
/// behind its end tag.
pub open spec fn span_of(events: Seq<EventAt>, k: int) -> SpanV {
    SpanV {
        name: tag_of(events, k).name(),
        start: pos_at(events, k),
        end: match events[k].event {
            EventV::Start(tag) => events[after(events, k, tag) - 1].end,
            _ => events[k].end,
        },
    }
}

proof fn lemma_children_beside(d: DocV, i: int) -> (ks: Seq<int>)
    requires
        tidy(d.events),
        0 <= i <= d.events.len(),
    ensures
        rising(ks),
        forall|m: int| #[trigger] ks.contains(m) <==> beside(d.events, i, m),
        children(d, i, true) == Seq::new(ks.len(), |n: int| span_of(d.events, ks[n])),
    decreases d.events.len() - i,
{
    let events = d.events;
    if i >= events.len() {
        let ks = Seq::<int>::empty();
        assert(children(d, i, true) =~= Seq::new(ks.len(), |n: int| span_of(events, ks[n])));
        ks
    } else {
        assert(events[i].event !is Error);
        match events[i].event {
            EventV::Start(tag) => {
                let j = after(events, i, tag);
                lemma_element_step(events, i, tag);
                lemma_scope_step(events, i, j);
                let rest = lemma_children_beside(d, j);
                let ks = seq![i] + rest;
                lemma_child_front(events, i, j, rest);
                assert(children(d, i, true) =~= Seq::new(ks.len(), |n: int| span_of(events, ks[n])));
                ks
            },
            EventV::Empty(tag) => {
                let step = depth_at(events, i + 1);
                lemma_scope_step(events, i, i + 1);
                let rest = lemma_children_beside(d, i + 1);
                let ks = seq![i] + rest;
                lemma_child_front(events, i, i + 1, rest);
                assert(children(d, i, true) =~= Seq::new(ks.len(), |n: int| span_of(events, ks[n])));
                ks
            },
            EventV::End(_) => {
                lemma_end_step(events, i);
                let ks = Seq::<int>::empty();
                assert forall|m: int| #[trigger] ks.contains(m) <==> beside(events, i, m) by {
                    assert(!within_scope(events, i, m));
                }
                assert(children(d, i, true) =~= Seq::new(ks.len(), |n: int| span_of(events, ks[n])));
                ks
            },
            _ => {
                let step = depth_at(events, i + 1);
                lemma_scope_step(events, i, i + 1);
                let ks = lemma_children_beside(d, i + 1);
                assert forall|m: int| #[trigger] ks.contains(m) <==> beside(events, i, m) by {
                    if m >= i + 1 {
                        assert(beside(events, i, m) <==> beside(events, i + 1, m));
                    }
                }
                ks
            },
        }
    }
}

proof fn lemma_child_front(events: Seq<EventAt>, i: int, j: int, rest: Seq<int>)
    requires
        0 <= i < j <= events.len(),
        events[i].event is Start || events[i].event is Empty,
        rising(rest),
        forall|m: int| #[trigger] rest.contains(m) <==> beside(events, j, m),
        forall|m: int| m >= j ==> (#[trigger] beside(events, i, m) <==> beside(events, j, m)),
        forall|m: int| i < m < j ==> !#[trigger] beside(events, i, m),
    ensures
        rising(seq![i] + rest),
        forall|m: int| #[trigger] (seq![i] + rest).contains(m) <==> beside(events, i, m),
{
    let ks = seq![i] + rest;
    assert(beside(events, i, i));
    assert forall|n: int| 0 <= n < rest.len() implies #[trigger] rest[n] >= j by {
        assert(rest.contains(rest[n]));
    }
    assert forall|a: int, b: int| 0 <= a < b < ks.len() implies #[trigger] ks[a]
        < #[trigger] ks[b] by {
        assert(ks[b] == rest[b - 1]);
        if a > 0 {
            assert(ks[a] == rest[a - 1]);
        }
    }
    assert forall|m: int| #[trigger] ks.contains(m) <==> beside(events, i, m) by {
        if ks.contains(m) {
            let n = choose|n: int| 0 <= n < ks.len() && ks[n] == m;
            if n > 0 {
                assert(rest[n - 1] == m);
                assert(rest.contains(m));
            }
        }
        if beside(events, i, m) {
            if m == i {
                assert(ks[0] == i);
            } else {
                assert(m >= j);
                assert(rest.contains(m));
                let n = choose|n: int| 0 <= n < rest.len() && rest[n] == m;
                assert(ks[n + 1] == m);
            }
        }
    }
}

/// Whether the event `m` is the tag of a child of the element whose start tag is
/// the event `k`: a tag that lies inside it, one level deeper.
pub open spec fn is_child(events: Seq<EventAt>, k: int, m: int) -> bool {
    &&& 0 <= m < events.len()
    &&& events[m].event is Start || events[m].event is Empty
    &&& inside(events, k, m)
    &&& depth_at(events, m) == depth_at(events, k) + 1
}

/// Whether the first element of a document starts with the event `k`.
pub open spec fn first_element(events: Seq<EventAt>, k: int) -> bool {
    &&& 0 <= k < events.len()
    &&& events[k].event is Start
    &&& forall|j: int|
        0 <= j < k ==> !(#[trigger] events[j].event is Start) && !(events[j].event is Empty) && !(
        events[j].event is End)
}

proof fn lemma_child_beside(events: Seq<EventAt>, k: int)
    requires
        0 <= k < events.len(),
        events[k].event is Start,
    ensures
        forall|m: int| #[trigger] is_child(events, k, m) <==> beside(events, k + 1, m),
{
    let step = depth_at(events, k + 1);
    assert forall|m: int| #[trigger] is_child(events, k, m) <==> beside(events, k + 1, m) by {
        if is_child(events, k, m) {
            assert forall|p: int| k + 1 <= p <= m implies #[trigger] depth_at(events, p)
                >= depth_at(events, k + 1) by {}
        }
        if beside(events, k + 1, m) {
            assert forall|p: int| k < p <= m implies #[trigger] depth_at(events, p) > depth_at(
                events,
                k,
            ) by {}
        }
    }
}

proof fn lemma_children_enter(d: DocV, i: int, k: int)
    requires
        0 <= i <= k,
        first_element(d.events, k),
    ensures
        children(d, i, false) == children(d, k + 1, true),
        has_child(d.events, i, false) == has_child(d.events, k + 1, true),
        first_tag(d.events, i) == Some(k),
        forall|name: MatcherV| #[trigger]
            child_text(d.events, i, false, name) == child_text(d.events, k + 1, true, name),
    decreases k - i,
{
    if i < k {
        assert(!(d.events[i].event is Start));
        lemma_children_enter(d, i + 1, k);
        assert forall|name: MatcherV| #[trigger]
            child_text(d.events, i, false, name) == child_text(d.events, k + 1, true, name) by {
            assert(child_text(d.events, i + 1, false, name) == child_text(
                d.events,
                k + 1,
                true,
                name,
            ));
        }
    }
}

/// The children of an element are exactly the tags one level inside it, in the
/// order of the document, whatever text stands between them: `ks` are their
/// events. Each covers the bytes from its tag to its end, under its name.
pub proof fn law_children_are_the_child_tags(d: DocV, k: int) -> (ks: Seq<int>)
    requires
        tidy(d.events),
        first_element(d.events, k),
    ensures
        rising(ks),
        forall|m: int| #[trigger] ks.contains(m) <==> is_child(d.events, k, m),
        children(d, 0, false).len() == ks.len(),
        forall|n: int|
            0 <= n < ks.len() ==> (#[trigger] children(d, 0, false)[n]) == span_of(d.events, ks[n]),
        has_child(d.events, 0, false) == (ks.len() > 0),
{
    lemma_children_enter(d, 0, k);
    let ks = lemma_children_beside(d, k + 1);
    lemma_child_beside(d.events, k);
    lemma_has_child_at(d, k + 1);
    assert forall|m: int| #[trigger] ks.contains(m) <==> is_child(d.events, k, m) by {
        assert(is_child(d.events, k, m) <==> beside(d.events, k + 1, m));
    }
    ks
}

proof fn lemma_has_child_at(d: DocV, i: int)
    requires
        tidy(d.events),
        0 <= i <= d.events.len(),
    ensures
        has_child(d.events, i, true) == (children(d, i, true).len() > 0),
    decreases d.events.len() - i,
{
    if i < d.events.len() {
        match d.events[i].event {
            EventV::Start(_) => {},
            EventV::Empty(_) => {},
            EventV::End(_) => {},
            _ => lemma_has_child_at(d, i + 1),
        }
    }
}

/// An element covers the bytes from before its start tag to behind the end tag
/// that closes it.
pub proof fn law_span_ends_with_the_end_tag(events: Seq<EventAt>, k: int, tag: TagV)
    requires
        tidy(events),
        0 <= k < events.len(),
        events[k].event == EventV::Start(tag),
    ensures
        ({
            let span = span_of(events, k);
            &&& span.name == tag.name()
            &&& span.start == if k == 0 {
                0
            } else {
                events[k - 1].end
            }
            &&& exists|e: int|
                k < e < events.len() && #[trigger] inside(events, k, e) && !inside(
                    events,
                    k,
                    e + 1,
                ) && events[e].event == EventV::End(tag.name()) && span.end == events[e].end
        }),
{
    law_element_ends_with_its_end_tag(events, k, tag);
    let e = after(events, k, tag) - 1;
    assert(inside(events, k, e));
    assert(!inside(events, k, e + 1));
}

/// What an event adds to the text of the element around it.
pub open spec fn text_piece(event: EventV) -> Seq<u8> {
    match event {
        EventV::Text(raw) => text_content(raw),
        EventV::CData(raw) => raw,
        _ => Seq::empty(),
    }
}

/// What the events from `i` to before `j` add to a text, one after the other.
pub open spec fn text_pieces(events: Seq<EventAt>, i: int, j: int) -> Seq<u8>
    decreases j - i,
{
    if i >= j {
        Seq::empty()
    } else {
        text_piece(events[i].event) + text_pieces(events, i + 1, j)
    }
}

/// The text of a scope is that of all its texts and CDATA sections, at any
/// depth, one after the other, up to the end tag that closes the scope.
pub proof fn law_scope_text_is_all_text_inside(events: Seq<EventAt>, i: int, depth: nat)
    requires
        closes(events, i, depth),
        depth >= 1,
    ensures
        scope_text(events, i, depth) == text_pieces(events, i, scope_end(events, i, depth) - 1),
    decreases events.len() - i,
{
    let e = scope_end(events, i, depth) - 1;
    lemma_scope_depths(events, i, depth);
    match events[i].event {
        EventV::Start(_) => {
            law_scope_text_is_all_text_inside(events, i + 1, depth + 1);
            lemma_scope_depths(events, i + 1, depth + 1);
            assert(Seq::<u8>::empty() + text_pieces(events, i + 1, e) =~= text_pieces(
                events,
                i + 1,
                e,
            ));
        },
        EventV::End(_) => {
            if depth > 1 {
                law_scope_text_is_all_text_inside(events, i + 1, (depth - 1) as nat);
                lemma_scope_depths(events, i + 1, (depth - 1) as nat);
                assert(Seq::<u8>::empty() + text_pieces(events, i + 1, e) =~= text_pieces(
                    events,
                    i + 1,
                    e,
                ));
            }
        },
        _ => {
            law_scope_text_is_all_text_inside(events, i + 1, depth);
            lemma_scope_depths(events, i + 1, depth);
            assert(Seq::<u8>::empty() + text_pieces(events, i + 1, e) =~= text_pieces(
                events,
                i + 1,
                e,
            ));
        },
    }
}

/// The text of an element in a tidy document is all text between its start tag
/// and its end tag.
pub proof fn law_element_text_is_all_text_inside(events: Seq<EventAt>, k: int, tag: TagV)
    requires
        tidy(events),
        0 <= k < events.len(),
        events[k].event == EventV::Start(tag),
    ensures
        scope_text(events, k + 1, 1) == text_pieces(events, k + 1, after(events, k, tag) - 1),
{
    assert(closed_by_name(events, k, tag));
    law_scope_text_is_all_text_inside(events, k + 1, 1);
    law_skipping_leaves_the_element(events, k, tag);
}

/// The text of a captured element is the text of the first element in its
/// bytes; an empty element has none.
pub proof fn law_fragment_text_is_that_of_its_element(fragment: Seq<u8>, k: int)
    requires
        ({
            let events = doc_of(fragment).events;
            &&& 0 <= k < events.len()
            &&& events[k].event is Start || events[k].event is Empty
            &&& forall|j: int|
                0 <= j < k ==> !(#[trigger] events[j].event is Start) && !(
                events[j].event is Empty)
        }),
    ensures
        ({
            let events = doc_of(fragment).events;
            element_text(fragment) == match events[k].event {
                EventV::Start(_) => scope_text(events, k + 1, 1),
                _ => Seq::empty(),
            }
        }),
{
    lemma_first_tag(doc_of(fragment).events, 0, k);
}

proof fn lemma_first_tag(events: Seq<EventAt>, i: int, k: int)
    requires
        0 <= i <= k < events.len(),
        events[k].event is Start || events[k].event is Empty,
        forall|j: int|
            0 <= j < k ==> !(#[trigger] events[j].event is Start) && !(events[j].event is Empty),
    ensures
        first_tag(events, i) == Some(k),
    decreases k - i,
{
    if i < k {
        assert(!(events[i].event is Start));
        lemma_first_tag(events, i + 1, k);
    }
}

proof fn lemma_child_text_at(d: DocV, i: int, name: MatcherV)
    requires
        tidy(d.events),
        0 <= i <= d.events.len(),
    ensures
        child_text(d.events, i, true, name) == ({
            let ks = siblings(d, i, name);
            if ks.len() == 0 {
                None
            } else {
                match d.events[ks[0]].event {
                    EventV::Start(_) => Some(scope_text(d.events, ks[0] + 1, 1)),
                    _ => Some(Seq::empty()),
                }
            }
        }),
    decreases d.events.len() - i,
{
    if i < d.events.len() {
        assert(d.events[i].event !is Error);
        match d.events[i].event {
            EventV::Start(tag) => {
                if !hits(name, tag) {
                    lemma_element_step(d.events, i, tag);
                    lemma_child_text_at(d, after(d.events, i, tag), name);
                }
            },
            EventV::End(_) => {},
            _ => {
                lemma_child_text_at(d, i + 1, name);
            },
        }
    }
}

/// A predicate on a child looks at the first child of the candidate whose name
/// matches, wherever it stands among the others: it has the text of that child.
pub proof fn law_predicate_looks_at_first_child_of_the_name(d: DocV, k: int, name: MatcherV, m: int)
    requires
        tidy(d.events),
        first_element(d.events, k),
        is_child(d.events, k, m),
        hits(name, tag_of(d.events, m)),
        forall|j: int|
            j < m && #[trigger] is_child(d.events, k, j) ==> !hits(name, tag_of(d.events, j)),
    ensures
        child_text(d.events, 0, false, name) == Some(
            match d.events[m].event {
                EventV::Start(_) => scope_text(d.events, m + 1, 1),
                _ => Seq::empty(),
            },
        ),
{
    lemma_children_enter(d, 0, k);
    lemma_child_beside(d.events, k);
    lemma_child_text_at(d, k + 1, name);
    law_siblings_are_the_tags_beside(d, k + 1, name);
    let ks = siblings(d, k + 1, name);
    assert(beside(d.events, k + 1, m));
    assert(ks.contains(m));
    let n = choose|n: int| 0 <= n < ks.len() && ks[n] == m;
    assert(ks.contains(ks[0]));
    assert(is_child(d.events, k, ks[0])) by {
        assert(beside(d.events, k + 1, ks[0]));
    }
    if n > 0 {
        assert(ks[0] < ks[n]);
    }
    assert(child_text(d.events, 0, false, name) == child_text(d.events, k + 1, true, name));
}

/// Without a child whose name matches there is nothing that a predicate could
/// look at.
pub proof fn law_predicate_finds_no_child(d: DocV, k: int, name: MatcherV)
    requires
        tidy(d.events),
        first_element(d.events, k),
        forall|j: int| #[trigger] is_child(d.events, k, j) ==> !hits(name, tag_of(d.events, j)),
    ensures
        child_text(d.events, 0, false, name) is None,
{
    lemma_children_enter(d, 0, k);
    lemma_child_beside(d.events, k);
    lemma_child_text_at(d, k + 1, name);
    law_siblings_are_the_tags_beside(d, k + 1, name);
    let ks = siblings(d, k + 1, name);
    if ks.len() > 0 {
        assert(ks.contains(ks[0]));
        assert(is_child(d.events, k, ks[0])) by {
            assert(beside(d.events, k + 1, ks[0]));
        }
    }
    assert(child_text(d.events, 0, false, name) == child_text(d.events, k + 1, true, name));
}

/// `@name` selects the value of the attribute of the element around it, and
/// nothing where it has no such attribute.
pub proof fn law_attribute_step_selects_the_value(
    d: DocV,
    i: int,
    tag: TagV,
    name: Seq<char>,
    known: ReadingsV,
)
    ensures
        ({
            let r = enter(d, i, Some(tag), seq![StepV::Attribute(name)], known, nothing());
            let place = place_at(d, i - 1);
            let e = in_empty(tag, place, seq![StepV::Attribute(name)], nothing());
            &&& r.flow is Go
            &&& r.sink.items == match attr_value(tag, name) {
                Some(value) => seq![FoundV { place, item: ItemV::Scalar(value) }],
                None => seq![],
            }
            &&& r.sink.asked.len() == 0
            &&& e == r.sink
        }),
{
    let r = enter(d, i, Some(tag), seq![StepV::Attribute(name)], known, nothing());
    if let Some(value) = attr_value(tag, name) {
        assert(r.sink.items =~= seq![
            FoundV { place: place_at(d, i - 1), item: ItemV::Scalar(value) },
        ]);
    }
}

/// `#text` selects the text of the element around it; an empty element has the
/// empty text.
pub proof fn law_text_step_selects_the_text(
    d: DocV,
    i: int,
    tag: TagV,
    place: nat,
    known: ReadingsV,
)
    ensures
        ({
            let r = enter(d, i, Some(tag), seq![StepV::Text], known, nothing());
            &&& r.flow is Go
            &&& r.sink.items == seq![
                FoundV {
                    place: place_at(d, i - 1),
                    item: ItemV::Scalar(scope_text(d.events, i, 1)),
                },
            ]
            &&& r.sink.asked.len() == 0
        }),
        in_empty(tag, place, seq![StepV::Text], nothing()).items == seq![
            FoundV { place, item: ItemV::Scalar(Seq::empty()) },
        ],
        in_empty(tag, place, seq![], nothing()).items == seq![
            FoundV { place, item: ItemV::Element(empty_element(tag)) },
        ],
{
    let r = enter(d, i, Some(tag), seq![StepV::Text], known, nothing());
    assert(r.sink.items =~= seq![
        FoundV { place: place_at(d, i - 1), item: ItemV::Scalar(scope_text(d.events, i, 1)) },
    ]);
    assert(in_empty(tag, place, seq![StepV::Text], nothing()).items =~= seq![
        FoundV { place, item: ItemV::Scalar(Seq::empty()) },
    ]);
    assert(in_empty(tag, place, seq![], nothing()).items =~= seq![
        FoundV { place, item: ItemV::Element(empty_element(tag)) },
    ]);
}

/// Inside an empty element no child is found.
pub proof fn law_empty_elements_have_no_children(tag: TagV, place: nat, steps: Seq<StepV>)
    requires
        steps.len() > 0,
        steps[0] is Child,
    ensures
        in_empty(tag, place, steps, nothing()) == nothing(),
{
}

/// A name without a prefix and without escapes matches the elements of that
/// local name, whatever their prefixes; one with a prefix matches the elements
/// of that very name.
pub proof fn law_plain_names_match_elements(name: Seq<char>, tag: TagV)
    requires
        !name.contains('\\'),
    ensures
        hits(MatcherV::Exact(name), tag) == (encode_utf8(name) == if name.contains(':') {
            tag.name()
        } else {
            local_name(tag.name())
        }),
{
    lemma_no_escape(name);
}

} // verus!
