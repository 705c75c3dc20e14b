//! What holds of every name pattern: it is the sum of its parts.

use vstd::prelude::*;
use vstd::utf8::{
    decode_utf8, decode_utf8_encode_utf8, encode_utf8_decode_utf8, encode_utf8_valid_utf8,
    valid_utf8,
};

use crate::text::text_or_empty;
use crate::wildcard::{glob, has_wildcard, matcher_of, unescaped};

verus! {

/// Whether every backslash of a pattern has a character to escape.
pub open spec fn whole(p: Seq<char>) -> bool
    decreases p.len(),
{
    if p.len() == 0 {
        true
    } else if p[0] == '\\' {
        p.len() >= 2 && whole(p.skip(2))
    } else {
        whole(p.skip(1))
    }
}

/// Whether a character stands for itself wherever it stands in a pattern.
pub open spec fn plain(c: char) -> bool {
    c != '\\' && c != '*' && c != '?'
}

proof fn lemma_one(c: char)
    ensures
        seq![c].skip(1) == Seq::<char>::empty(),
{
    assert(seq![c].skip(1) =~= Seq::empty());
}

/// The smallest patterns: nothing matches nothing, a star anything, a question
/// mark any one character, and every other character, escaped or not, itself.
pub proof fn law_smallest_patterns(c: char, t: Seq<char>)
    ensures
        glob(Seq::empty(), t) <==> t.len() == 0,
        glob(seq!['*'], t),
        glob(seq!['?'], t) <==> t.len() == 1,
        plain(c) ==> (glob(seq![c], t) <==> t == seq![c]),
        glob(seq!['\\', c], t) <==> t == seq![c],
    decreases t.len(),
{
    lemma_one(c);
    lemma_one('*');
    lemma_one('?');
    assert(seq!['\\', c].skip(2) =~= Seq::<char>::empty());
    assert(glob(Seq::empty(), t) <==> t.len() == 0);
    if t.len() > 0 {
        law_smallest_patterns(c, t.skip(1));
        assert(glob(Seq::empty(), t.skip(1)) <==> t.skip(1).len() == 0);
        if t.len() == 1 && t[0] == c {
            assert(t =~= seq![c]);
        }
    }
}

/// Whether a text falls into two at `k`, of which the one pattern matches the
/// first part and the other the second.
pub open spec fn splits(a: Seq<char>, b: Seq<char>, t: Seq<char>, k: int) -> bool {
    0 <= k <= t.len() && glob(a, t.take(k)) && glob(b, t.skip(k))
}

proof fn lemma_splits_first(a: Seq<char>, rest: Seq<char>, b: Seq<char>, t: Seq<char>)
    requires
        t.len() > 0,
        forall|k: int| 0 < k <= t.len() ==> (#[trigger] glob(a, t.take(k)) <==> glob(
            rest,
            t.take(k).skip(1),
        )),
        !glob(a, Seq::empty()),
    ensures
        (exists|k: int| splits(a, b, t, k)) <==> (exists|k: int| splits(rest, b, t.skip(1), k)),
{
    let u = t.skip(1);
    assert forall|k: int| 0 < k <= t.len() implies t.take(k).skip(1) == #[trigger] u.take(k - 1)
        && t.skip(k) == u.skip(k - 1) by {
        assert(t.take(k).skip(1) =~= u.take(k - 1));
        assert(t.skip(k) =~= u.skip(k - 1));
    }
    if exists|k: int| splits(a, b, t, k) {
        let k = choose|k: int| splits(a, b, t, k);
        if k == 0 {
            assert(t.take(0) =~= Seq::empty());
        } else {
            assert(u.take(k - 1) == t.take(k).skip(1));
            assert(splits(rest, b, u, k - 1));
        }
    }
    if exists|k: int| splits(rest, b, u, k) {
        let k = choose|k: int| splits(rest, b, u, k);
        assert(u.take(k + 1 - 1) == t.take(k + 1).skip(1));
        assert(t.skip(k + 1) == u.skip(k));
        assert(glob(a, t.take(k + 1)));
        assert(splits(a, b, t, k + 1));
    }
}

/// One pattern behind another matches what falls into two parts that they match.
pub proof fn law_patterns_match_in_turn(a: Seq<char>, b: Seq<char>, t: Seq<char>)
    requires
        whole(a),
    ensures
        glob(a + b, t) <==> exists|k: int| splits(a, b, t, k),
    decreases a.len(), t.len(),
{
    let p = a + b;
    if a.len() == 0 {
        assert(p =~= b);
        assert(t.skip(0) =~= t);
        assert(t.take(0).len() == 0);
        if glob(p, t) {
            assert(splits(a, b, t, 0));
        }
        if exists|k: int| splits(a, b, t, k) {
            let k = choose|k: int| splits(a, b, t, k);
            assert(t.take(k).len() == k);
        }
    } else if a[0] == '*' {
        let rest = a.skip(1);
        assert(p.skip(1) =~= rest + b);
        law_patterns_match_in_turn(rest, b, t);
        if t.len() > 0 {
            law_patterns_match_in_turn(a, b, t.skip(1));
        }
        if glob(p, t) {
            if glob(rest + b, t) {
                let k = choose|k: int| splits(rest, b, t, k);
                assert(splits(a, b, t, k));
            } else {
                let u = t.skip(1);
                let k = choose|k: int| splits(a, b, u, k);
                assert(t.take(k + 1).skip(1) =~= u.take(k));
                assert(t.skip(k + 1) =~= u.skip(k));
                assert(splits(a, b, t, k + 1));
            }
        }
        if exists|k: int| splits(a, b, t, k) {
            let k = choose|k: int| splits(a, b, t, k);
            if glob(rest, t.take(k)) {
                assert(splits(rest, b, t, k));
            } else {
                let u = t.skip(1);
                assert(t.take(k).skip(1) =~= u.take(k - 1));
                assert(t.skip(k) =~= u.skip(k - 1));
                assert(splits(a, b, u, k - 1));
            }
        }
    } else {
        let n: int = if a[0] == '\\' {
            2
        } else {
            1
        };
        let rest = a.skip(n);
        assert(p.skip(n) =~= rest + b);
        assert(p[0] == a[0]);
        if n == 2 {
            assert(p[1] == a[1]);
        }
        assert(!glob(a, Seq::empty()));
        if t.len() > 0 {
            let takes = if a[0] == '\\' {
                t[0] == a[1]
            } else {
                a[0] == '?' || t[0] == a[0]
            };
            law_patterns_match_in_turn(rest, b, t.skip(1));
            assert(glob(p, t) == (takes && glob(rest + b, t.skip(1))));
            assert forall|k: int| 0 < k <= t.len() implies #[trigger] glob(a, t.take(k)) == (takes
                && glob(rest, t.take(k).skip(1))) by {
                assert(t.take(k)[0] == t[0]);
            }
            if takes {
                lemma_splits_first(a, rest, b, t);
            } else if exists|k: int| splits(a, b, t, k) {
                let k = choose|k: int| splits(a, b, t, k);
                if k == 0 {
                    assert(t.take(0) =~= Seq::empty());
                }
            }
        } else {
            if exists|k: int| splits(a, b, t, k) {
                let k = choose|k: int| splits(a, b, t, k);
                assert(t.take(k) =~= Seq::empty());
            }
        }
    }
}

/// A pattern holds a wildcard where one of its parts does: a star or a question
/// mark, unless it is escaped.
pub proof fn law_wildcards_of_parts(a: Seq<char>, b: Seq<char>, c: char)
    requires
        whole(a),
    ensures
        has_wildcard(a + b) == (has_wildcard(a) || has_wildcard(b)),
        !has_wildcard(Seq::empty()),
        has_wildcard(seq![c]) == (c == '*' || c == '?'),
        !has_wildcard(seq!['\\', c]),
    decreases a.len(),
{
    lemma_one(c);
    assert(seq!['\\', c].skip(2) =~= Seq::<char>::empty());
    assert(!has_wildcard(Seq::empty()));
    let p = a + b;
    if a.len() == 0 {
        assert(p =~= b);
    } else {
        let n: int = if a[0] == '\\' {
            2
        } else {
            1
        };
        assert(p.skip(n) =~= a.skip(n) + b);
        assert(p[0] == a[0]);
        law_wildcards_of_parts(a.skip(n), b, c);
    }
}

/// A pattern spells what its parts spell, one behind the other: an escaped
/// character itself, any other character but a backslash too, and a backslash at
/// the very end nothing.
pub proof fn law_parts_are_spelled_in_turn(a: Seq<char>, b: Seq<char>, c: char)
    requires
        whole(a),
    ensures
        unescaped(a + b) == unescaped(a) + unescaped(b),
        unescaped(Seq::empty()) == Seq::<char>::empty(),
        unescaped(seq![c]) == if c == '\\' {
            Seq::<char>::empty()
        } else {
            seq![c]
        },
        unescaped(seq!['\\', c]) == seq![c],
    decreases a.len(),
{
    lemma_one(c);
    assert(seq!['\\', c].skip(2) =~= Seq::<char>::empty());
    assert(unescaped(Seq::empty()) =~= Seq::<char>::empty());
    assert(seq![c] + Seq::<char>::empty() =~= seq![c]);
    let p = a + b;
    if a.len() == 0 {
        assert(p =~= b);
        assert(unescaped(a) + unescaped(b) =~= unescaped(b));
    } else {
        let n: int = if a[0] == '\\' {
            2
        } else {
            1
        };
        assert(p.skip(n) =~= a.skip(n) + b);
        assert(p[0] == a[0]);
        law_parts_are_spelled_in_turn(a.skip(n), b, c);
        assert(unescaped(p) =~= unescaped(a) + unescaped(b));
    }
}

/// A pattern is compared with the qualified name where it holds a colon, and with
/// the local name otherwise; without wildcards it has to spell the name, and with
/// them to match it. Bytes that are no text are no literal name, and for a wildcard
/// the empty one.
pub proof fn law_patterns_are_compared_with_names(p: Seq<char>, full: Seq<u8>, local: Seq<u8>)
    ensures
        ({
            let name = if p.contains(':') {
                full
            } else {
                local
            };
            &&& has_wildcard(p) ==> matcher_of(p).matches_bytes(full, local) == glob(
                p,
                text_or_empty(name),
            )
            &&& !has_wildcard(p) ==> (matcher_of(p).matches_bytes(full, local) <==> valid_utf8(name)
                && decode_utf8(name) == unescaped(p))
        }),
{
    let name = if p.contains(':') {
        full
    } else {
        local
    };
    encode_utf8_valid_utf8(unescaped(p));
    encode_utf8_decode_utf8(unescaped(p));
    if valid_utf8(name) {
        decode_utf8_encode_utf8(name);
    }
}

} // verus!
