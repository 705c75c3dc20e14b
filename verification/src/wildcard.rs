//! Element name patterns: `*` stands for any run of characters, `?` for
//! exactly one, and `\` takes the next character literally. Patterns match by
//! Unicode scalar values, not by bytes.

use vstd::prelude::*;
use vstd::utf8::{decode_utf8, encode_utf8, valid_utf8};

use crate::text::{chars_of, copy_text, same_bytes, same_text, text_or_empty, utf8_or_empty};

verus! {

/// A compiled name pattern, a literal name or a glob, each as it was written:
/// with its escapes.
#[derive(Debug, Clone, PartialEq, Eq)]
pub enum NameMatcher {
    Exact(String),
    Glob(String),
}

/// What a name pattern says, over plain character sequences.
pub enum MatcherV {
    Exact(Seq<char>),
    Glob(Seq<char>),
}

impl View for NameMatcher {
    type V = MatcherV;

    open spec fn view(&self) -> MatcherV {
        match self {
            NameMatcher::Exact(s) => MatcherV::Exact(s@),
            NameMatcher::Glob(s) => MatcherV::Glob(s@),
        }
    }
}

/// `s` with every escape resolved: a backslash gives way to the character
/// after it, and a backslash at the very end is dropped.
pub open spec fn unescaped(s: Seq<char>) -> Seq<char>
    decreases s.len(),
{
    if s.len() == 0 {
        Seq::empty()
    } else if s[0] == '\\' {
        if s.len() == 1 {
            Seq::empty()
        } else {
            seq![s[1]] + unescaped(s.skip(2))
        }
    } else {
        seq![s[0]] + unescaped(s.skip(1))
    }
}

/// Whether `s` holds a `*` or a `?` that no backslash escapes.
pub open spec fn has_wildcard(s: Seq<char>) -> bool
    decreases s.len(),
{
    if s.len() == 0 {
        false
    } else if s[0] == '\\' {
        if s.len() == 1 {
            false
        } else {
            has_wildcard(s.skip(2))
        }
    } else {
        s[0] == '*' || s[0] == '?' || has_wildcard(s.skip(1))
    }
}

/// Whether the glob `p` matches the whole of `t`.
pub open spec fn glob(p: Seq<char>, t: Seq<char>) -> bool
    decreases p.len(), t.len(),
{
    if p.len() == 0 {
        t.len() == 0
    } else if p[0] == '\\' && p.len() >= 2 {
        t.len() > 0 && t[0] == p[1] && glob(p.skip(2), t.skip(1))
    } else if p[0] == '?' {
        t.len() > 0 && glob(p.skip(1), t.skip(1))
    } else if p[0] == '*' {
        glob(p.skip(1), t) || (t.len() > 0 && glob(p, t.skip(1)))
    } else {
        t.len() > 0 && t[0] == p[0] && glob(p.skip(1), t.skip(1))
    }
}

/// The pattern that a path component `raw` stands for.
pub open spec fn matcher_of(raw: Seq<char>) -> MatcherV {
    if has_wildcard(raw) {
        MatcherV::Glob(raw)
    } else {
        MatcherV::Exact(raw)
    }
}

impl MatcherV {
    /// The pattern as it was written.
    pub open spec fn source(self) -> Seq<char> {
        match self {
            MatcherV::Exact(s) => s,
            MatcherV::Glob(s) => s,
        }
    }

    /// Whether the pattern is compared with qualified names: exactly where it
    /// holds a colon itself.
    pub open spec fn qualified(self) -> bool {
        self.source().contains(':')
    }

    /// Whether the pattern matches an element with the qualified name `full`
    /// and the local name `local`.
    pub open spec fn matches(self, full: Seq<char>, local: Seq<char>) -> bool {
        let name = if self.qualified() {
            full
        } else {
            local
        };
        match self {
            MatcherV::Exact(s) => unescaped(s) == name,
            MatcherV::Glob(p) => glob(p, name),
        }
    }

    /// Whether the pattern matches an element whose names are given as bytes.
    /// A glob reads bytes that are not valid UTF-8 as the empty name.
    pub open spec fn matches_bytes(self, full: Seq<u8>, local: Seq<u8>) -> bool {
        let name = if self.qualified() {
            full
        } else {
            local
        };
        match self {
            MatcherV::Exact(s) => encode_utf8(unescaped(s)) == name,
            MatcherV::Glob(p) => glob(p, text_or_empty(name)),
        }
    }
}

/// Whether a string holds a character.
fn holds(s: &str, c: char) -> (r: bool)
    ensures
        r == s@.contains(c),
{
    let chars = chars_of(s);
    for i in 0..chars.len()
        invariant
            chars@ == s@,
            forall|j: int| 0 <= j < i ==> chars@[j] != c,
    {
        if chars[i] == c {
            assert(s@[i as int] == c);
            return true;
        }
    }
    false
}

/// Whether a string holds a colon.
fn has_colon(s: &str) -> (r: bool)
    ensures
        r == s@.contains(':'),
{
    holds(s, ':')
}

/// Whether a string holds a backslash.
fn has_escape(s: &str) -> (r: bool)
    ensures
        r == s@.contains('\\'),
{
    holds(s, '\\')
}

/// A text without backslashes spells itself.
pub proof fn lemma_no_escape(s: Seq<char>)
    requires
        !s.contains('\\'),
    ensures
        unescaped(s) == s,
    decreases s.len(),
{
    if s.len() > 0 {
        assert(s[0] != '\\');
        assert forall|c: char| s.skip(1).contains(c) implies s.contains(c) by {
            let k = choose|k: int| 0 <= k < s.skip(1).len() && s.skip(1)[k] == c;
            assert(s[k + 1] == c);
        }
        lemma_no_escape(s.skip(1));
        assert(seq![s[0]] + s.skip(1) =~= s);
    } else {
        assert(unescaped(s) =~= s);
    }
}

impl NameMatcher {
    /// Compiles a path component: a glob where it holds a live `*` or `?`, and
    /// otherwise a literal name.
    pub fn parse(raw: &str) -> (m: Self)
        ensures
            m@ == matcher_of(raw@),
            m@.source() == raw@,
    {
        let chars = chars_of(raw);
        let n = chars.len();
        let mut i: usize = 0;
        let mut found = false;
        assert(raw@.skip(0) =~= raw@);
        while i < n && !found
            invariant
                chars@ == raw@,
                n == raw@.len(),
                i <= n,
                found ==> has_wildcard(raw@),
                !found ==> has_wildcard(raw@) == has_wildcard(raw@.skip(i as int)),
            decreases n - i + (if found { 0int } else { 1 }),
        {
            let ghost rest = raw@.skip(i as int);
            let c = chars[i];
            if c == '\\' {
                if i + 1 < n {
                    assert(rest.skip(2) =~= raw@.skip(i + 2));
                    i = i + 2;
                } else {
                    assert(raw@.skip(i + 1).len() == 0);
                    i = i + 1;
                }
            } else if c == '*' || c == '?' {
                found = true;
            } else {
                assert(rest.skip(1) =~= raw@.skip(i + 1));
                i = i + 1;
            }
        }
        if found {
            NameMatcher::Glob(copy_text(raw))
        } else {
            NameMatcher::Exact(copy_text(raw))
        }
    }

    /// The pattern as it was written, suitable for error messages.
    pub fn as_source(&self) -> (s: &str)
        ensures
            s@ == self@.source(),
    {
        match self {
            NameMatcher::Exact(s) => s.as_str(),
            NameMatcher::Glob(s) => s.as_str(),
        }
    }

    /// Matches an element by its qualified name and its local name. A pattern
    /// without a colon matches by local name, whatever the prefix; one with a
    /// colon is compared with the qualified name.
    pub fn matches(&self, full: &str, local: &str) -> (r: bool)
        ensures
            r == self@.matches(full@, local@),
    {
        let name = if has_colon(self.as_source()) {
            full
        } else {
            local
        };
        match self {
            NameMatcher::Exact(s) => if has_escape(s.as_str()) {
                same_text(unescape(s.as_str()).as_str(), name)
            } else {
                proof {
                    lemma_no_escape(s@);
                }
                same_text(s.as_str(), name)
            },
            NameMatcher::Glob(p) => glob_match(p.as_str(), name),
        }
    }

    /// Matches an element by the UTF-8 bytes of its names. A literal name is
    /// compared byte by byte, without decoding.
    pub fn matches_bytes(&self, full: &[u8], local: &[u8]) -> (r: bool)
        ensures
            r == self@.matches_bytes(full@, local@),
    {
        let name = if has_colon(self.as_source()) {
            full
        } else {
            local
        };
        match self {
            NameMatcher::Exact(s) => if has_escape(s.as_str()) {
                same_bytes(unescape(s.as_str()).as_str().as_bytes(), name)
            } else {
                proof {
                    lemma_no_escape(s@);
                }
                same_bytes(s.as_str().as_bytes(), name)
            },
            NameMatcher::Glob(p) => glob_match(p.as_str(), utf8_or_empty(name)),
        }
    }
}

/// Resolves the escapes of a string.
pub(crate) fn unescape(raw: &str) -> (r: String)
    ensures
        r@ == unescaped(raw@),
{
    let chars = chars_of(raw);
    let n = chars.len();
    let mut out = String::new();
    let mut i: usize = 0;
    assert(raw@.skip(0) =~= raw@);
    assert(out@ + unescaped(raw@) =~= unescaped(raw@));
    while i < n
        invariant
            chars@ == raw@,
            n == raw@.len(),
            i <= n,
            out@ + unescaped(raw@.skip(i as int)) == unescaped(raw@),
        decreases n - i,
    {
        let ghost rest = raw@.skip(i as int);
        let ghost before = out@;
        if chars[i] == '\\' {
            if i + 1 < n {
                out.push(chars[i + 1]);
                assert(rest.skip(2) =~= raw@.skip(i + 2));
                assert(before + (seq![rest[1]] + unescaped(rest.skip(2))) =~= out@ + unescaped(
                    rest.skip(2),
                ));
                i = i + 2;
            } else {
                assert(raw@.skip(i + 1).len() == 0);
                i = i + 1;
            }
        } else {
            out.push(chars[i]);
            assert(rest.skip(1) =~= raw@.skip(i + 1));
            assert(before + (seq![rest[0]] + unescaped(rest.skip(1))) =~= out@ + unescaped(
                rest.skip(1),
            ));
            i = i + 1;
        }
    }
    assert(raw@.skip(n as int).len() == 0);
    assert(out@ + unescaped(raw@.skip(n as int)) =~= out@);
    out
}

/// Whether the part of `p` from `i` matches the part of `t` from `j`.
spec fn glob_at(p: Seq<char>, t: Seq<char>, i: int, j: int) -> bool {
    glob(p.skip(i), t.skip(j))
}

/// The length of the pattern unit at the head of `p.skip(i)`.
spec fn unit_len(p: Seq<char>, i: int) -> int {
    if p[i] == '\\' && i + 1 < p.len() {
        2
    } else {
        1
    }
}

/// The unit of `p` at `i`, which is not `*`, matches the character `c`.
spec fn unit_takes(p: Seq<char>, i: int, c: char) -> bool {
    if p[i] == '\\' && i + 1 < p.len() {
        p[i + 1] == c
    } else {
        p[i] == '?' || p[i] == c
    }
}

proof fn lemma_unit(p: Seq<char>, t: Seq<char>, i: int, j: int)
    requires
        0 <= i < p.len(),
        0 <= j <= t.len(),
        p[i] != '*',
    ensures
        glob_at(p, t, i, j) == (j < t.len() && unit_takes(p, i, t[j]) && glob_at(
            p,
            t,
            i + unit_len(p, i),
            j + 1,
        )),
{
    let n = unit_len(p, i);
    assert(p.skip(i).skip(n) =~= p.skip(i + n));
    if j < t.len() {
        assert(t.skip(j).skip(1) =~= t.skip(j + 1));
    }
}

proof fn lemma_star(p: Seq<char>, t: Seq<char>, i: int, j: int)
    requires
        0 <= i < p.len(),
        0 <= j <= t.len(),
        p[i] == '*',
    ensures
        glob_at(p, t, i, j) == (glob_at(p, t, i + 1, j) || (j < t.len() && glob_at(p, t, i, j + 1))),
{
    assert(p.skip(i).skip(1) =~= p.skip(i + 1));
    if j < t.len() {
        assert(t.skip(j).skip(1) =~= t.skip(j + 1));
    }
}

/// A star matches from `j` exactly where what follows it matches somewhere
/// from `j` on.
proof fn lemma_star_some(p: Seq<char>, t: Seq<char>, i: int, j: int)
    requires
        0 <= i < p.len(),
        0 <= j <= t.len(),
        p[i] == '*',
    ensures
        glob_at(p, t, i, j) == exists|k: int| j <= k <= t.len() && #[trigger] glob_at(p, t, i + 1, k),
    decreases t.len() - j,
{
    lemma_star(p, t, i, j);
    if j < t.len() {
        lemma_star_some(p, t, i, j + 1);
    }
    if glob_at(p, t, i, j) {
        if !glob_at(p, t, i + 1, j) {
            let k = choose|k: int| j + 1 <= k <= t.len() && #[trigger] glob_at(p, t, i + 1, k);
            assert(j <= k <= t.len() && glob_at(p, t, i + 1, k));
        }
    }
    if exists|k: int| j <= k <= t.len() && #[trigger] glob_at(p, t, i + 1, k) {
        let k = choose|k: int| j <= k <= t.len() && #[trigger] glob_at(p, t, i + 1, k);
        if k > j {
            assert(j + 1 <= k <= t.len() && glob_at(p, t, i + 1, k));
        }
    }
}

/// The part of `p` from `from` to `to` holds only single-character units and
/// matches `width` characters.
spec fn fixed_run(p: Seq<char>, t: Seq<char>, from: int, to: int, start: int, width: int) -> bool {
    &&& forall|k: int|
        start <= k <= t.len() && #[trigger] glob_at(p, t, from, k) ==> k + width <= t.len()
            && glob_at(p, t, to, k + width)
    &&& glob_at(p, t, to, start + width) ==> glob_at(p, t, from, start)
}

/// Glob matching with at most one point to fall back to: the last star.
fn glob_match(pattern: &str, text: &str) -> (r: bool)
    ensures
        r == glob(pattern@, text@),
{
    let pattern_chars = chars_of(pattern);
    let text_chars = chars_of(text);
    let p = pattern_chars.as_slice();
    let t = text_chars.as_slice();
    let mut pi: usize = 0;
    let mut ti: usize = 0;
    let mut star: Option<usize> = None;
    let mut star_ti: usize = 0;
    assert(p@.skip(0) =~= p@);
    assert(t@.skip(0) =~= t@);
    assert(glob_at(p@, t@, 0, 0) == glob(p@, t@));

    while ti < t.len()
        invariant
            p@ == pattern@,
            t@ == text@,
            pi <= p@.len(),
            star_ti <= ti <= t@.len(),
            star is None ==> star_ti == 0,
            star matches Some(sp) ==> sp < pi && p@[sp as int] == '*' && glob(p@, t@) == glob_at(
                p@,
                t@,
                sp as int,
                star_ti as int,
            ) && fixed_run(p@, t@, sp + 1, pi as int, star_ti as int, ti - star_ti),
            star is None ==> glob(p@, t@) == glob_at(p@, t@, pi as int, ti as int),
        decreases t@.len() - star_ti, t@.len() - ti, p@.len() - pi,
    {
        let ghost old_pi = pi as int;
        let ghost old_ti = ti as int;
        let mut advanced = false;
        if pi < p.len() {
            let pc = p[pi];
            if pc == '*' {
                proof {
                    if let Some(sp) = star {
                        let s = sp as int;
                        let width = ti - star_ti;
                        lemma_star_some(p@, t@, s, star_ti as int);
                        lemma_star_some(p@, t@, old_pi, old_ti);
                        if glob_at(p@, t@, s, star_ti as int) {
                            let k = choose|k: int| star_ti <= k <= t@.len() && #[trigger] glob_at(p@, t@, s + 1, k);
                            assert(glob_at(p@, t@, old_pi, k + width));
                            lemma_star_some(p@, t@, old_pi, k + width);
                            let m = choose|m: int| k + width <= m <= t@.len() && #[trigger] glob_at(p@, t@, old_pi + 1, m);
                            assert(old_ti <= m <= t@.len() && glob_at(p@, t@, old_pi + 1, m));
                        }
                        if glob_at(p@, t@, old_pi, old_ti) {
                            assert(glob_at(p@, t@, s + 1, star_ti as int));
                        }
                    }
                }
                star = Some(pi);
                star_ti = ti;
                pi = pi + 1;
                advanced = true;
            } else {
                proof {
                    lemma_unit(p@, t@, old_pi, old_ti);
                    assert forall|k: int|
                        0 <= k <= t@.len() && #[trigger] glob_at(p@, t@, old_pi, k) implies k + 1
                        <= t@.len() && glob_at(p@, t@, old_pi + unit_len(p@, old_pi), k + 1) by {
                        lemma_unit(p@, t@, old_pi, k);
                    }
                }
                let width: usize = if pc == '\\' && pi + 1 < p.len() {
                    2
                } else {
                    1
                };
                let takes = if width == 2 {
                    p[pi + 1] == t[ti]
                } else {
                    pc == '?' || pc == t[ti]
                };
                if takes {
                    pi = pi + width;
                    ti = ti + 1;
                    advanced = true;
                    proof {
                        if let Some(sp) = star {
                            let w = old_ti - star_ti;
                            assert forall|k: int|
                                star_ti <= k <= t@.len() && #[trigger] glob_at(
                                    p@,
                                    t@,
                                    sp + 1,
                                    k,
                                ) implies k + (w + 1) <= t@.len() && glob_at(
                                p@,
                                t@,
                                pi as int,
                                k + (w + 1),
                            ) by {
                                assert(glob_at(p@, t@, old_pi, k + w));
                            }
                        }
                    }
                }
            }
        } else {
            assert(p@.skip(old_pi).len() == 0);
            assert(!glob_at(p@, t@, old_pi, old_ti));
        }
        if !advanced {
            assert(!glob_at(p@, t@, old_pi, old_ti));
            match star {
                Some(sp) => {
                    proof {
                        lemma_star(p@, t@, sp as int, star_ti as int);
                        assert(star_ti + (old_ti - star_ti) == old_ti);
                    }
                    pi = sp + 1;
                    star_ti = star_ti + 1;
                    ti = star_ti;
                },
                None => {
                    return false;
                },
            }
        }
    }
    proof {
        if let Some(sp) = star {
            let s = sp as int;
            lemma_star_some(p@, t@, s, star_ti as int);
            if glob_at(p@, t@, s, star_ti as int) {
                let k = choose|k: int| star_ti <= k <= t@.len() && #[trigger] glob_at(p@, t@, s + 1, k);
                assert(k + (ti - star_ti) <= t@.len());
                assert(k == star_ti);
            }
            if glob_at(p@, t@, pi as int, ti as int) {
                assert(star_ti + (ti - star_ti) == ti);
                assert(glob_at(p@, t@, s + 1, star_ti as int));
            }
        }
    }
    assert(glob(p@, t@) == glob_at(p@, t@, pi as int, ti as int));
    while pi < p.len() && p[pi] == '*'
        invariant
            pi <= p@.len(),
            ti == t@.len(),
            glob(p@, t@) == glob_at(p@, t@, pi as int, ti as int),
        decreases p@.len() - pi,
    {
        proof {
            lemma_star(p@, t@, pi as int, ti as int);
        }
        pi = pi + 1;
    }
    proof {
        if pi < p@.len() {
            lemma_unit(p@, t@, pi as int, ti as int);
        } else {
            assert(p@.skip(pi as int).len() == 0);
        }
    }
    pi == p.len()
}

/// `s` with a backslash before every character.
pub open spec fn escaped(s: Seq<char>) -> Seq<char>
    decreases s.len(),
{
    if s.len() == 0 {
        Seq::empty()
    } else {
        seq!['\\', s[0]] + escaped(s.skip(1))
    }
}

/// Escaping makes any name literal: the pattern made of the escaped name
/// matches that name and no other, whatever characters it holds.
pub proof fn law_escaped_name_is_literal(s: Seq<char>, full: Seq<char>, local: Seq<char>)
    ensures
        matcher_of(escaped(s)) == MatcherV::Exact(escaped(s)),
        matcher_of(escaped(s)).matches(full, local) == (s == if s.contains(':') {
            full
        } else {
            local
        }),
{
    lemma_escaped(s);
    lemma_escaped_holds(s, ':');
}

/// A pattern is told as it was written.
pub proof fn law_pattern_keeps_its_source(raw: Seq<char>)
    ensures
        matcher_of(raw).source() == raw,
{
}

/// Escaping adds nothing but backslashes.
proof fn lemma_escaped_holds(s: Seq<char>, c: char)
    requires
        c != '\\',
    ensures
        escaped(s).contains(c) == s.contains(c),
    decreases s.len(),
{
    if s.len() > 0 {
        let tail = escaped(s.skip(1));
        let e = escaped(s);
        lemma_escaped_holds(s.skip(1), c);
        assert(e =~= seq!['\\', s[0]] + tail);
        if e.contains(c) {
            let k = choose|k: int| 0 <= k < e.len() && e[k] == c;
            if k == 1 {
                assert(s[0] == c);
            } else {
                assert(tail[k - 2] == c);
                let m = choose|m: int| 0 <= m < s.skip(1).len() && s.skip(1)[m] == c;
                assert(s[m + 1] == c);
            }
        }
        if s.contains(c) {
            let k = choose|k: int| 0 <= k < s.len() && s[k] == c;
            if k == 0 {
                assert(e[1] == c);
            } else {
                assert(s.skip(1)[k - 1] == c);
                let m = choose|m: int| 0 <= m < tail.len() && tail[m] == c;
                assert(e[m + 2] == c);
            }
        }
    }
}

proof fn lemma_escaped(s: Seq<char>)
    ensures
        !has_wildcard(escaped(s)),
        unescaped(escaped(s)) == s,
    decreases s.len(),
{
    if s.len() > 0 {
        lemma_escaped(s.skip(1));
        let e = escaped(s);
        assert(e.skip(2) =~= escaped(s.skip(1)));
        assert(e[0] == '\\' && e[1] == s[0]);
        assert(unescaped(e) =~= s);
    } else {
        assert(unescaped(escaped(s)) =~= s);
    }
}

/// A pattern without a colon ignores namespaces: only the local name decides.
pub proof fn law_unqualified_ignores_prefix(
    m: MatcherV,
    full: Seq<char>,
    other: Seq<char>,
    local: Seq<char>,
)
    requires
        !m.source().contains(':'),
    ensures
        m.matches(full, local) == m.matches(other, local),
{
}

/// A pattern with a colon is compared with the qualified name alone.
pub proof fn law_qualified_ignores_local(
    m: MatcherV,
    full: Seq<char>,
    local: Seq<char>,
    other: Seq<char>,
)
    requires
        m.source().contains(':'),
    ensures
        m.matches(full, local) == m.matches(full, other),
{
}

/// Matching by bytes and matching by characters agree on valid UTF-8.
pub proof fn law_bytes_match_as_text(m: MatcherV, full: Seq<u8>, local: Seq<u8>)
    requires
        valid_utf8(full),
        valid_utf8(local),
    ensures
        m.matches_bytes(full, local) == m.matches(decode_utf8(full), decode_utf8(local)),
{
    broadcast use {vstd::utf8::encode_utf8_decode_utf8, vstd::utf8::decode_utf8_encode_utf8};

    let name = if m.qualified() {
        full
    } else {
        local
    };
    if let MatcherV::Exact(s) = m {
        let literal = unescaped(s);
        if encode_utf8(literal) == name {
            assert(decode_utf8(encode_utf8(literal)) == literal);
        }
        if literal == decode_utf8(name) {
            assert(encode_utf8(decode_utf8(name)) == name);
        }
    }
}

/// A lone `*` matches every name.
pub proof fn law_star_matches_all(t: Seq<char>)
    ensures
        glob(seq!['*'], t),
    decreases t.len(),
{
    let p = seq!['*'];
    if t.len() > 0 {
        law_star_matches_all(t.skip(1));
    } else {
        assert(p.skip(1).len() == 0);
        assert(glob(p.skip(1), t));
    }
}

/// A pattern without wildcards matches exactly the one name that its escapes
/// spell out, read as a glob or as a literal.
pub proof fn law_glob_of_literal(p: Seq<char>, t: Seq<char>)
    requires
        !has_wildcard(p),
        p.len() == 0 || p.last() != '\\',
    ensures
        glob(p, t) == (unescaped(p) == t),
    decreases p.len(),
{
    if p.len() == 0 {
        assert((unescaped(p) == t) == (t.len() == 0)) by {
            if t.len() == 0 {
                assert(unescaped(p) =~= t);
            }
        }
    } else {
        let n: int = if p[0] == '\\' {
            2
        } else {
            1
        };
        let rest = p.skip(n);
        let first = p[n - 1];
        assert(rest.len() == 0 || rest.last() == p.last());
        assert(unescaped(p) == seq![first] + unescaped(rest));
        if t.len() > 0 {
            law_glob_of_literal(rest, t.skip(1));
            assert(t =~= seq![t[0]] + t.skip(1));
            if unescaped(p) == t {
                assert(t[0] == first);
                assert(t.skip(1) =~= unescaped(rest));
            }
            if t[0] == first && unescaped(rest) == t.skip(1) {
                assert(unescaped(p) =~= t);
            }
        } else {
            assert(unescaped(p).len() > 0);
        }
    }
}

} // verus!
