//! What holds of every path that is written out: each word between dots stands for
//! its component, and the components for their steps.

use vstd::prelude::*;

use crate::grammar::{
    closing, component, components, filter_expr, followed, pending, sections, ComponentV,
};
use crate::number::{all_digits, digits_value};
use crate::path::{FilterV, ParseErrorV};
use crate::path_laws::{dotted, ordinary, plain};
use crate::wildcard::{lemma_no_escape, matcher_of};

verus! {

/// Whether a text is made of ordinary characters and wildcards.
pub open spec fn quiet(s: Seq<char>) -> bool {
    forall|k: int| 0 <= k < s.len() ==> ordinary(#[trigger] s[k]) || s[k] == '*' || s[k] == '?'
}

/// Whether a text is made of ordinary characters, wildcards, and any characters with
/// a backslash before each.
pub open spec fn spelled(s: Seq<char>) -> bool
    decreases s.len(),
{
    if s.len() == 0 {
        true
    } else if s[0] == '\\' {
        s.len() >= 2 && spelled(s.skip(2))
    } else {
        (ordinary(s[0]) || s[0] == '*' || s[0] == '?') && spelled(s.skip(1))
    }
}

/// Whether a text is made of characters that neither quote, escape, group nor
/// separate sections.
pub open spec fn all_plain(s: Seq<char>) -> bool {
    forall|k: int| 0 <= k < s.len() ==> plain(#[trigger] s[k])
}

/// Whether a text stands in quotes and holds neither such a quote nor a backslash
/// between them.
pub open spec fn in_quotes(s: Seq<char>) -> bool {
    &&& s.len() >= 2
    &&& s[0] == '"' || s[0] == '\''
    &&& s.last() == s[0]
    &&& forall|k: int| 0 < k < s.len() - 1 ==> (#[trigger] s[k]) != s[0] && s[k] != '\\'
}

/// Whether a text is plain but for what stands in quotes between `a` and `b`.
pub open spec fn calm_between(e: Seq<char>, a: int, b: int) -> bool {
    &&& 0 <= a <= b <= e.len()
    &&& all_plain(e.take(a))
    &&& a == b || in_quotes(e.subrange(a, b))
    &&& all_plain(e.skip(b))
}

/// Whether a text is plain but for one text in quotes, or none.
pub open spec fn calm(e: Seq<char>) -> bool {
    exists|a: int, b: int| calm_between(e, a, b)
}

/// A filter as it is written.
pub open spec fn filter_text(e: Seq<char>, all: bool) -> Seq<char> {
    seq!['#', '('] + e + if all {
        seq![')', '#']
    } else {
        seq![')']
    }
}

/// Whether a word between dots is a way to write a component.
pub open spec fn writes(word: Seq<char>, c: ComponentV) -> bool {
    match c {
        ComponentV::Name(name) => {
            &&& name == matcher_of(word)
            &&& word.len() > 0
            &&& !all_digits(word)
            &&& spelled(word)
            &&& word.len() >= 2 ==> !(word[0] == '*' && word[1] == '*')
        },
        ComponentV::Index(n) => {
            &&& word.len() > 0
            &&& all_digits(word)
            &&& n == digits_value(word)
            &&& n <= usize::MAX
        },
        ComponentV::Hash => word == seq!['#'],
        ComponentV::TextLit => word == seq!['#', 't', 'e', 'x', 't'],
        ComponentV::Attribute(name) => word == seq!['@'] + name && name.len() > 0 && quiet(name),
        ComponentV::Descendant => word == seq!['*', '*'],
        ComponentV::Filter { filter, all } => exists|e: Seq<char>|
            word == #[trigger] filter_text(e, all) && calm(e) && filter_expr(e) == Ok::<
                FilterV,
                ParseErrorV,
            >(filter),
    }
}

proof fn lemma_components_shift(a: Seq<char>, r: Seq<char>, i: int, current: Seq<char>)
    requires
        0 <= i,
    ensures
        components(a + r, a.len() + i, current) == components(r, i, current),
    decreases r.len() - i,
{
    let s = a + r;
    let n = a.len() as int;
    if i < r.len() {
        let c = r[i];
        assert(s[n + i] == c);
        if i + 1 < r.len() {
            assert(s[n + i + 1] == r[i + 1]);
        }
        if c == '\\' {
            if i + 1 < r.len() {
                lemma_components_shift(a, r, i + 2, current + seq!['\\', r[i + 1]]);
            } else {
                lemma_components_shift(a, r, i + 1, current.push('\\'));
            }
        } else if c == '*' && current.len() == 0 && i + 1 < r.len() && r[i + 1] == '*' {
            lemma_components_shift(a, r, i + 2, current);
        } else if c == '#' && i + 1 < r.len() && r[i + 1] == '(' {
            lemma_closing_shift(a, r, i + 2, 1, None);
            if let Some(close) = closing(r, i + 2, 1, None) {
                lemma_closing_range(r, i + 2, 1, None);
                assert(s.subrange(n + i + 2, n + close) =~= r.subrange(i + 2, close));
                if close + 1 < r.len() {
                    assert(s[n + close + 1] == r[close + 1]);
                }
                lemma_components_shift(a, r, close + 1, Seq::empty());
                if close + 1 < r.len() {
                    lemma_components_shift(a, r, close + 2, Seq::empty());
                }
            }
        } else if c == '.' {
            lemma_components_shift(a, r, i + 1, Seq::empty());
        } else {
            lemma_components_shift(a, r, i + 1, current.push(c));
        }
    }
}

proof fn lemma_closing_shift(a: Seq<char>, r: Seq<char>, i: int, depth: nat, quote: Option<char>)
    requires
        0 <= i,
    ensures
        closing(a + r, a.len() + i, depth, quote) == match closing(r, i, depth, quote) {
            Some(k) => Some(a.len() + k),
            None => None,
        },
    decreases r.len() - i,
{
    let s = a + r;
    if i < r.len() {
        let c = r[i];
        assert(s[a.len() + i] == c);
        if c == '\\' && i + 1 < r.len() {
            lemma_closing_shift(a, r, i + 2, depth, quote);
        } else {
            lemma_closing_shift(a, r, i + 1, depth, quote);
            lemma_closing_shift(a, r, i + 1, depth, None);
            lemma_closing_shift(a, r, i + 1, depth, Some(c));
            lemma_closing_shift(a, r, i + 1, depth + 1, quote);
            if depth > 0 {
                lemma_closing_shift(a, r, i + 1, (depth - 1) as nat, quote);
            }
        }
    }
}

proof fn lemma_closing_range(s: Seq<char>, i: int, depth: nat, quote: Option<char>)
    ensures
        closing(s, i, depth, quote) matches Some(k) ==> i <= k < s.len(),
    decreases s.len() - i,
{
    if 0 <= i < s.len() {
        let c = s[i];
        if c == '\\' && i + 1 < s.len() {
            lemma_closing_range(s, i + 2, depth, quote);
        } else {
            lemma_closing_range(s, i + 1, depth, quote);
            lemma_closing_range(s, i + 1, depth, None);
            lemma_closing_range(s, i + 1, depth, Some(c));
            lemma_closing_range(s, i + 1, depth + 1, quote);
            if depth > 0 {
                lemma_closing_range(s, i + 1, (depth - 1) as nat, quote);
            }
        }
    }
}

pub proof fn lemma_over_plain(s: Seq<char>, i: int, j: int, last: int, depth: nat)
    requires
        0 <= i <= j <= s.len(),
        forall|k: int| i <= k < j ==> plain(#[trigger] s[k]),
    ensures
        closing(s, i, depth, None) == closing(s, j, depth, None),
        sections(s, i, last, depth, None) == sections(s, j, last, depth, None),
    decreases j - i,
{
    if i < j {
        assert(plain(s[i]));
        lemma_over_plain(s, i + 1, j, last, depth);
    }
}

proof fn lemma_over_quoted(s: Seq<char>, i: int, j: int, last: int, depth: nat, q: char)
    requires
        0 <= i <= j <= s.len(),
        forall|k: int| i <= k < j ==> (#[trigger] s[k]) != q && s[k] != '\\',
    ensures
        closing(s, i, depth, Some(q)) == closing(s, j, depth, Some(q)),
        sections(s, i, last, depth, Some(q)) == sections(s, j, last, depth, Some(q)),
    decreases j - i,
{
    if i < j {
        lemma_over_quoted(s, i + 1, j, last, depth, q);
    }
}

proof fn lemma_over_calm(s: Seq<char>, i: int, e: Seq<char>, last: int, depth: nat)
    requires
        0 <= i,
        i + e.len() <= s.len(),
        s.subrange(i, i + e.len()) == e,
        calm(e),
    ensures
        closing(s, i, depth, None) == closing(s, i + e.len(), depth, None),
        sections(s, i, last, depth, None) == sections(s, i + e.len(), last, depth, None),
{
    let (a, b) = choose|a: int, b: int| calm_between(e, a, b);
    assert forall|k: int| 0 <= k < e.len() implies s[i + k] == #[trigger] e[k] by {
        assert(s.subrange(i, i + e.len())[k] == s[i + k]);
    }
    assert forall|k: int| i <= k < i + a implies plain(#[trigger] s[k]) by {
        assert(s[i + (k - i)] == e[k - i]);
        assert(e.take(a)[k - i] == e[k - i]);
    }
    assert forall|k: int| i + b <= k < i + e.len() implies plain(#[trigger] s[k]) by {
        assert(s[i + (k - i)] == e[k - i]);
        assert(e.skip(b)[k - i - b] == e[k - i]);
    }
    lemma_over_plain(s, i, i + a, last, depth);
    lemma_over_plain(s, i + b, i + e.len(), last, depth);
    if a < b {
        let quoted = e.subrange(a, b);
        let q = quoted[0];
        assert(s[i + a] == e[a]);
        assert(s[i + (b - 1)] == e[b - 1]);
        assert(quoted.last() == e[b - 1]);
        assert forall|k: int| i + a + 1 <= k < i + b - 1 implies (#[trigger] s[k]) != q && s[k]
            != '\\' by {
            assert(s[i + (k - i)] == e[k - i]);
            assert(quoted[k - i - a] == e[k - i]);
        }
        lemma_over_quoted(s, i + a + 1, i + b - 1, last, depth, q);
    }
}

/// Whether a character goes on with the component that is being read.
spec fn goes_on(s: Seq<char>, k: int) -> bool {
    &&& s[k] != '\\'
    &&& s[k] != '.'
    &&& !(s[k] == '#' && k + 1 < s.len() && s[k + 1] == '(')
}

proof fn lemma_run(s: Seq<char>, i: int, j: int, current: Seq<char>)
    requires
        0 <= i <= j <= s.len(),
        forall|k: int| i <= k < j ==> #[trigger] goes_on(s, k),
        i < j && current.len() == 0 ==> !(s[i] == '*' && i + 1 < s.len() && s[i + 1] == '*'),
    ensures
        components(s, i, current) == components(s, j, current + s.subrange(i, j)),
    decreases j - i,
{
    if i < j {
        assert(goes_on(s, i));
        lemma_run(s, i + 1, j, current.push(s[i]));
        assert(current.push(s[i]) + s.subrange(i + 1, j) =~= current + s.subrange(i, j));
    } else {
        assert(current + s.subrange(i, j) =~= current);
    }
}

proof fn lemma_run_spelled(s: Seq<char>, i: int, word: Seq<char>, current: Seq<char>)
    requires
        0 <= i,
        i + word.len() <= s.len(),
        forall|k: int| 0 <= k < word.len() ==> s[i + k] == #[trigger] word[k],
        spelled(word),
        word.len() > 0 && current.len() == 0 ==> !(s[i] == '*' && i + 1 < s.len() && s[i + 1]
            == '*'),
    ensures
        components(s, i, current) == components(s, i + word.len(), current + word),
    decreases word.len(),
{
    if word.len() == 0 {
        assert(current + word =~= current);
    } else if word[0] == '\\' {
        let rest = word.skip(2);
        let two = seq!['\\', word[1]];
        assert(s[i + 0] == word[0]);
        assert(s[i + 1] == word[1]);
        assert forall|k: int| 0 <= k < rest.len() implies s[i + 2 + k] == #[trigger] rest[k] by {
            assert(s[i + (k + 2)] == word[k + 2]);
        }
        lemma_run_spelled(s, i + 2, rest, current + two);
        assert(current + two + rest =~= current + word);
    } else {
        let rest = word.skip(1);
        assert(s[i + 0] == word[0]);
        assert forall|k: int| 0 <= k < rest.len() implies s[i + 1 + k] == #[trigger] rest[k] by {
            assert(s[i + (k + 1)] == word[k + 1]);
        }
        lemma_run_spelled(s, i + 1, rest, current.push(word[0]));
        assert(current.push(word[0]) + rest =~= current + word);
    }
}

proof fn lemma_sections_spelled(s: Seq<char>, i: int, word: Seq<char>)
    requires
        0 <= i,
        i + word.len() <= s.len(),
        forall|k: int| 0 <= k < word.len() ==> s[i + k] == #[trigger] word[k],
        spelled(word),
    ensures
        sections(s, i, 0, 0, None) == sections(s, i + word.len(), 0, 0, None),
    decreases word.len(),
{
    if word.len() > 0 {
        let n: int = if word[0] == '\\' {
            2
        } else {
            1
        };
        let rest = word.skip(n);
        assert(s[i + 0] == word[0]);
        assert forall|k: int| 0 <= k < rest.len() implies s[i + n + k] == #[trigger] rest[k] by {
            assert(s[i + (k + n)] == word[k + n]);
        }
        lemma_sections_spelled(s, i + n, rest);
    }
}

/// What a word of one component stands for: a lone `#`, `#text`, digits, `@` and a
/// name, and everything else as a name.
pub proof fn law_words_are_components(word: Seq<char>, c: ComponentV)
    requires
        writes(word, c),
    ensures
        !(c is Descendant) && !(c is Filter) ==> component(word) == Ok::<ComponentV, ParseErrorV>(
            c,
        ),
        component(seq!['@']) == Err::<ComponentV, ParseErrorV>(ParseErrorV::EmptyAttribute),
{
    reveal_strlit("#");
    reveal_strlit("#text");
    assert("#"@ =~= seq!['#']);
    assert("#text"@ =~= seq!['#', 't', 'e', 'x', 't']);
    assert(seq!['@'][0] != '#');
    assert("#"@[0] == '#');
    assert("#text"@[0] == '#');
    match c {
        ComponentV::Attribute(name) => {
            assert(word[0] == '@');
            assert(word.skip(1) =~= name);
            assert(!name.contains('\\')) by {
                if name.contains('\\') {
                    let k = choose|k: int| 0 <= k < name.len() && name[k] == '\\';
                    assert(ordinary(name[k]) || name[k] == '*' || name[k] == '?');
                }
            }
            lemma_no_escape(name);
        },
        ComponentV::Name(_) => {
            assert(ordinary(word[0]) || word[0] == '*' || word[0] == '?' || word[0] == '\\');
        },
        ComponentV::Index(_) => {
            assert('0' <= word[0] <= '9');
        },
        _ => {},
    }
}

/// Digits that are too many for a position are refused.
pub proof fn law_long_positions_are_refused(word: Seq<char>)
    requires
        word.len() > 0,
        all_digits(word),
        digits_value(word) > usize::MAX,
    ensures
        component(word) == Err::<ComponentV, ParseErrorV>(ParseErrorV::BadIndex(word)),
{
    reveal_strlit("#");
    reveal_strlit("#text");
    assert("#"@[0] == '#');
    assert("#text"@[0] == '#');
    assert('0' <= word[0] <= '9');
}

proof fn lemma_word(word: Seq<char>, c: ComponentV, tail: Seq<char>)
    requires
        writes(word, c),
        tail.len() == 0 || tail[0] == '.',
    ensures
        components(word + tail, 0, Seq::empty()) == followed(
            seq![c],
            components(
                word + tail,
                if tail.len() == 0 {
                    word.len() as int
                } else {
                    (word.len() + 1) as int
                },
                Seq::empty(),
            ),
        ),
{
    let s = word + tail;
    let n = word.len() as int;
    let none = Seq::<char>::empty();
    assert(s.subrange(0, n) =~= word);
    if tail.len() > 0 {
        assert(s[n] == '.');
        lemma_followed_nothing(components(s, n + 1, none));
    }
    lemma_followed_nothing(components(s, n, none));
    assert(pending(none) == Ok::<Seq<ComponentV>, ParseErrorV>(Seq::empty()));
    assert(seq![c] + Seq::<ComponentV>::empty() =~= seq![c]);
    match c {
        ComponentV::Descendant => {
            assert(s[0] == '*' && s[1] == '*');
            assert(components(s, 0, none) == followed(seq![c], components(s, 2, none)));
        },
        ComponentV::Filter { filter, all } => {
            let e = choose|e: Seq<char>|
                word == #[trigger] filter_text(e, all) && calm(e) && filter_expr(e) == Ok::<
                    FilterV,
                    ParseErrorV,
                >(filter);
            let close = 2 + e.len() as int;
            assert(s[0] == '#' && s[1] == '(');
            assert(s.subrange(2, close) =~= e);
            assert(s[close] == ')');
            lemma_over_calm(s, 2, e, 0, 1);
            assert(closing(s, 2, 1, None) == Some(close));
            if all {
                assert(s[close + 1] == '#');
            } else if tail.len() > 0 {
                assert(s[close + 1] == tail[0]);
            }
            assert(Seq::<ComponentV>::empty().push(c) =~= seq![c]);
            assert(components(s, 0, none) == followed(seq![c], components(s, n, none)));
        },
        ComponentV::Name(_) => {
            law_words_are_components(word, c);
            assert forall|k: int| 0 <= k < n implies s[0 + k] == #[trigger] word[k] by {}
            if n >= 2 {
                assert(s[1] == word[1]);
            } else if tail.len() > 0 {
                assert(s[1] == '.');
            }
            lemma_run_spelled(s, 0, word, none);
            assert(none + word =~= word);
            assert(pending(word) == Ok::<Seq<ComponentV>, ParseErrorV>(seq![c]));
        },
        _ => {
            law_words_are_components(word, c);
            assert forall|k: int| 0 <= k < n implies #[trigger] goes_on(s, k) by {
                assert(s[k] == word[k]);
                if k + 1 < n {
                    assert(s[k + 1] == word[k + 1]);
                }
                match c {
                    ComponentV::Attribute(name) => {
                        if k > 0 {
                            assert(word[k] == name[k - 1]);
                            assert(ordinary(name[k - 1]) || name[k - 1] == '*' || name[k - 1]
                                == '?');
                        }
                    },
                    ComponentV::Index(_) => {
                        assert('0' <= word[k] <= '9');
                    },
                    _ => {},
                }
            }
            assert(s[0] == word[0]);
            if n >= 2 {
                assert(s[1] == word[1]);
            } else if tail.len() > 0 {
                assert(s[1] == '.');
            }
            if let ComponentV::Index(_) = c {
                assert('0' <= word[0] <= '9');
            }
            lemma_run(s, 0, n, none);
            assert(none + s.subrange(0, n) =~= word);
            assert(pending(word) == Ok::<Seq<ComponentV>, ParseErrorV>(seq![c]));
        },
    }
}

proof fn lemma_followed_nothing(rest: Result<Seq<ComponentV>, ParseErrorV>)
    ensures
        followed(Seq::empty(), rest) == rest,
{
    if let Ok(tail) = rest {
        assert(Seq::<ComponentV>::empty() + tail =~= tail);
    }
}

/// Whether words are a way to write components, one by one.
pub open spec fn write_all(words: Seq<Seq<char>>, comps: Seq<ComponentV>) -> bool {
    words.len() == comps.len() && forall|k: int|
        0 <= k < words.len() ==> writes(#[trigger] words[k], comps[k])
}

/// Words with dots between them stand for their components, in turn.
pub proof fn law_dots_separate_components(words: Seq<Seq<char>>, comps: Seq<ComponentV>)
    requires
        write_all(words, comps),
    ensures
        components(dotted(words), 0, Seq::empty()) == Ok::<Seq<ComponentV>, ParseErrorV>(comps),
    decreases words.len(),
{
    let none = Seq::<char>::empty();
    if words.len() == 0 {
        assert(comps =~= Seq::empty());
    } else {
        let word = words[0];
        let c = comps[0];
        assert(writes(word, c));
        if words.len() == 1 {
            assert(word + none =~= word);
            lemma_word(word, c, none);
            assert(comps =~= seq![c] + Seq::<ComponentV>::empty());
        } else {
            let rest = words.skip(1);
            assert(write_all(rest, comps.skip(1))) by {
                assert forall|k: int| 0 <= k < rest.len() implies writes(
                    #[trigger] rest[k],
                    comps.skip(1)[k],
                ) by {
                    assert(rest[k] == words[k + 1]);
                }
            }
            law_dots_separate_components(rest, comps.skip(1));
            let tail = seq!['.'] + dotted(rest);
            assert(word + tail =~= dotted(words));
            lemma_word(word, c, tail);
            let front = word + seq!['.'];
            assert(front + dotted(rest) =~= dotted(words));
            lemma_components_shift(front, dotted(rest), 0, none);
            assert(seq![c] + comps.skip(1) =~= comps);
        }
    }
}

proof fn lemma_over_word(s: Seq<char>, i: int, word: Seq<char>, c: ComponentV)
    requires
        0 <= i,
        i + word.len() <= s.len(),
        s.subrange(i, i + word.len()) == word,
        writes(word, c),
    ensures
        sections(s, i, 0, 0, None) == sections(s, i + word.len(), 0, 0, None),
{
    assert forall|k: int| 0 <= k < word.len() implies s[i + k] == #[trigger] word[k] by {
        assert(s.subrange(i, i + word.len())[k] == s[i + k]);
    }
    if let ComponentV::Filter { filter, all } = c {
        let e = choose|e: Seq<char>|
            word == #[trigger] filter_text(e, all) && calm(e) && filter_expr(e) == Ok::<
                FilterV,
                ParseErrorV,
            >(filter);
        assert(s[i] == word[0]);
        assert(s[i + 1] == word[1]);
        let close = i + 2 + e.len();
        assert forall|k: int| 0 <= k < e.len() implies s[i + 2 + k] == #[trigger] e[k] by {
            assert(word[2 + k] == e[k]);
            assert(s[i + (2 + k)] == word[2 + k]);
        }
        assert(s.subrange(i + 2, close) =~= e);
        lemma_over_calm(s, i + 2, e, 0, 1);
        assert(sections(s, i, 0, 0, None) == sections(s, i + 1, 0, 0, None));
        assert(sections(s, i + 1, 0, 0, None) == sections(s, i + 2, 0, 1, None));
        assert(s[i + (2 + e.len())] == word[2 + e.len() as int]);
        assert(sections(s, close, 0, 1, None) == sections(s, close + 1, 0, 0, None));
        if all {
            assert(s[i + (3 + e.len())] == word[3 + e.len() as int]);
            assert(sections(s, close + 1, 0, 0, None) == sections(s, close + 2, 0, 0, None));
        }
    } else if c is Name {
        lemma_sections_spelled(s, i, word);
    } else {
        assert forall|k: int| i <= k < i + word.len() implies plain(#[trigger] s[k]) by {
            let m = k - i;
            assert(s[i + m] == word[m]);
            match c {
                ComponentV::Attribute(name) => {
                    if m > 0 {
                        assert(word[m] == name[m - 1]);
                        assert(ordinary(name[m - 1]) || name[m - 1] == '*' || name[m - 1] == '?');
                    }
                },
                ComponentV::Index(_) => {
                    assert('0' <= word[m] <= '9');
                },
                _ => {},
            }
        }
        lemma_over_plain(s, i, i + word.len(), 0, 0);
    }
}

/// Sections do not end inside of words with dots between them.
pub proof fn lemma_over_words(s: Seq<char>, i: int, words: Seq<Seq<char>>, comps: Seq<ComponentV>)
    requires
        0 <= i,
        i + dotted(words).len() <= s.len(),
        s.subrange(i, i + dotted(words).len()) == dotted(words),
        write_all(words, comps),
    ensures
        sections(s, i, 0, 0, None) == sections(s, i + dotted(words).len(), 0, 0, None),
    decreases words.len(),
{
    if words.len() > 0 {
        let text = dotted(words);
        let word = words[0];
        assert(writes(word, comps[0]));
        assert forall|k: int| 0 <= k < text.len() implies s[i + k] == #[trigger] text[k] by {
            assert(s.subrange(i, i + text.len())[k] == s[i + k]);
        }
        assert forall|k: int| 0 <= k < word.len() implies s[i + k] == #[trigger] word[k] by {
            assert(text[k] == word[k]);
        }
        assert(s.subrange(i, i + word.len()) =~= word);
        lemma_over_word(s, i, word, comps[0]);
        if words.len() > 1 {
            let rest = words.skip(1);
            assert(write_all(rest, comps.skip(1))) by {
                assert forall|k: int| 0 <= k < rest.len() implies writes(
                    #[trigger] rest[k],
                    comps.skip(1)[k],
                ) by {
                    assert(rest[k] == words[k + 1]);
                }
            }
            let n = word.len() as int;
            assert(text[n] == '.');
            assert(s[i + n] == '.');
            assert forall|k: int| 0 <= k < dotted(rest).len() implies s[i + n + 1 + k]
                == #[trigger] dotted(rest)[k] by {
                assert(text[n + 1 + k] == dotted(rest)[k]);
                assert(s[i + (n + 1 + k)] == text[n + 1 + k]);
            }
            assert(s.subrange(i + n + 1, i + n + 1 + dotted(rest).len()) =~= dotted(rest));
            lemma_over_words(s, i + n + 1, rest, comps.skip(1));
        }
    }
}

} // verus!
