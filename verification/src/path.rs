//! Path queries: the step program that a path compiles to.
//!
//! ```text
//! a.b.c            descend into named child elements
//! a.0  a.1         pick the n-th same-named child (0-based)
//! a.#              count of same-named children
//! a.#.b            project the rest over each occurrence
//! *  ?             wildcards in element names
//! @name            attribute (last component only)
//! #text            explicit text (last component only)
//! \.  \@  \\       escapes
//! a.#(expr)        filter: the first <a> for which `expr` is true
//! a.#(expr)#       filter: all <a> for which `expr` is true
//!                  expr ::= path op value
//!                  op ::= == | = | != | < | <= | > | >= | % | !%
//!                  value ::= "string" | number | true | false | bare text
//! a.**.b           descendant: `b` at any depth under `a`
//! path|@modifier   apply a modifier to the result list
//! ```
//!
//! A bare child name is an implicit selector: at the end of a path it selects
//! every match, and before further steps it has to match a single element.

use vstd::prelude::*;

use vstd::utf8::encode_utf8;

use crate::grammar::{
    backslashes, before_pipe, child, closing, compiled, component, components, error_offset,
    filter_expr, filter_value, followed, kind_message, main_section, modifier_named, modifier_of,
    modifiers_of, offset_of, operator, operator_at, path_message, pending, sections, shape_of,
    spaces, stepped, steps_of, unbalanced_at, BuiltV, ComponentV,
};
use crate::number::{has_only_digits, numeral_chars, parse_digits};
use crate::text::{
    chars_of, copy_range, copy_text, find_bytes, first_offset, lemma_trimmed_len, occurs_at,
    push_text, same_text, string_of, trim,
};
use crate::wildcard::{unescape, MatcherV, NameMatcher};

verus! {

/// How a filter compares.
#[derive(Debug, Clone, Copy, PartialEq, Eq, Structural)]
pub enum FilterOp {
    /// `==` or `=`
    Eq,
    /// `!=`
    Ne,
    /// `<`
    Lt,
    /// `<=`
    Le,
    /// `>`
    Gt,
    /// `>=`
    Ge,
    /// `%`
    GlobMatch,
    /// `!%`
    GlobNotMatch,
}

/// What a filter compares with. A number is kept as its numeral.
#[derive(Debug, Clone, PartialEq)]
pub enum FilterValue {
    Number(String),
    String(String),
    Bool(bool),
}

/// A predicate on candidate elements.
#[derive(Debug)]
pub struct Filter {
    /// Relative path inside the candidate element.
    pub path: Vec<Step>,
    pub op: FilterOp,
    pub value: FilterValue,
    /// The attribute name, where `path` is a single `@attr` step.
    pub attr_only: Option<String>,
}

/// Which of the children with a matching name a step selects.
#[derive(Debug)]
pub enum ChildIndex {
    /// Bare `name`. At the end of a path, every match; before further steps,
    /// the only match, and several are ambiguous.
    Auto,
    /// `.N`: the N-th same-named sibling (0-based).
    Nth(usize),
    /// `.#` at the end: the number of same-named children.
    Count,
    /// `.#.x`, or the target of `**`: every match, never ambiguous.
    Each,
    /// `.#(expr)`: the first child for which the predicate holds.
    FilterFirst(Filter),
    /// `.#(expr)#`: every child for which the predicate holds.
    FilterAll(Filter),
}

/// One step of a path.
#[derive(Debug)]
pub enum Step {
    /// Matches a child element; with `descendant`, at any depth.
    Child { name: NameMatcher, index: ChildIndex, descendant: bool },
    Attribute(String),
    Text,
}

/// What is done to the list of results.
#[derive(Debug, Clone, Copy, PartialEq, Eq, Structural)]
pub enum Modifier {
    Reverse,
    First,
    Last,
    Count,
    /// Lexicographic sort, ascending.
    Sort,
    /// Numeric sort; what is not a number sorts last.
    SortNumeric,
    /// Deduplicates, keeping the order of first occurrences.
    Unique,
    /// Leaves the items as they are: results are flat lists.
    Flatten,
    /// Leaves the items as they are: results are text already.
    Tostr,
    Sum,
    /// Arithmetic mean.
    Avg,
    Min,
    Max,
}

/// How elements at the end of a path are captured.
#[derive(Debug, Clone, Copy, PartialEq, Eq, Structural)]
pub enum TerminalShape {
    /// The full bytes of the element, which can be queried again.
    Element,
    /// Only the text content, where every modifier works on text.
    Text,
    /// Nothing: the matches are only counted.
    Count,
}

/// A compiled path.
#[derive(Debug)]
pub struct Program {
    pub steps: Vec<Step>,
    pub modifiers: Vec<Modifier>,
    /// Whether some step selects several elements explicitly.
    pub multi: bool,
    pub terminal_shape: TerminalShape,
}

/// What is wrong with a path.
#[derive(Debug)]
pub enum ParseError {
    EmptyPath,
    BadIndex(String),
    OrphanIndex,
    OrphanHash,
    AttributeNotTerminal,
    TextNotTerminal,
    EmptyAttribute,
    UnmatchedParen,
    FilterMissingOp(String),
    /// Reserved for stricter values.
    FilterBadValue(String),
    UnknownModifier(String),
    EmptyModifier,
    DescendantWithoutName,
    DescendantWithIndex,
}

/// What is wrong with a path, and the path.
#[derive(Debug)]
pub struct PathError {
    pub kind: ParseError,
    pub path: String,
}

/// The content of a [`ParseError`].
pub enum ParseErrorV {
    EmptyPath,
    BadIndex(Seq<char>),
    OrphanIndex,
    OrphanHash,
    AttributeNotTerminal,
    TextNotTerminal,
    EmptyAttribute,
    UnmatchedParen,
    FilterMissingOp(Seq<char>),
    FilterBadValue(Seq<char>),
    UnknownModifier(Seq<char>),
    EmptyModifier,
    DescendantWithoutName,
    DescendantWithIndex,
}

impl View for ParseError {
    type V = ParseErrorV;

    open spec fn view(&self) -> ParseErrorV {
        match self {
            ParseError::EmptyPath => ParseErrorV::EmptyPath,
            ParseError::BadIndex(s) => ParseErrorV::BadIndex(s@),
            ParseError::OrphanIndex => ParseErrorV::OrphanIndex,
            ParseError::OrphanHash => ParseErrorV::OrphanHash,
            ParseError::AttributeNotTerminal => ParseErrorV::AttributeNotTerminal,
            ParseError::TextNotTerminal => ParseErrorV::TextNotTerminal,
            ParseError::EmptyAttribute => ParseErrorV::EmptyAttribute,
            ParseError::UnmatchedParen => ParseErrorV::UnmatchedParen,
            ParseError::FilterMissingOp(s) => ParseErrorV::FilterMissingOp(s@),
            ParseError::FilterBadValue(s) => ParseErrorV::FilterBadValue(s@),
            ParseError::UnknownModifier(s) => ParseErrorV::UnknownModifier(s@),
            ParseError::EmptyModifier => ParseErrorV::EmptyModifier,
            ParseError::DescendantWithoutName => ParseErrorV::DescendantWithoutName,
            ParseError::DescendantWithIndex => ParseErrorV::DescendantWithIndex,
        }
    }
}

/// A text as a quoted literal, with what cannot stand in one escaped.
pub uninterp spec fn in_quotes(s: Seq<char>) -> Seq<char>;

/// `format!` with `{:?}` writes a string as a quoted literal. Which characters
/// are escaped and how is left to the name [`in_quotes`].
#[verifier::external_body]
fn quote(s: &str) -> (r: String)
    ensures
        r@ == in_quotes(s@),
{
    format!("{:?}", s)
}

/// What a filter compares with, over plain text.
pub enum ValueV {
    Number(Seq<char>),
    Text(Seq<char>),
    Bool(bool),
}

/// The content of a [`Filter`].
pub struct FilterV {
    pub path: Seq<StepV>,
    pub op: FilterOp,
    pub value: ValueV,
    pub attr_only: Option<Seq<char>>,
}

/// The content of a [`ChildIndex`].
pub enum IndexV {
    Auto,
    Nth(nat),
    Count,
    Each,
    FilterFirst(FilterV),
    FilterAll(FilterV),
}

/// The content of a [`Step`].
pub enum StepV {
    Child { name: MatcherV, index: IndexV, descendant: bool },
    Attribute(Seq<char>),
    Text,
}

/// The content of a [`Program`].
pub struct ProgramV {
    pub steps: Seq<StepV>,
    pub modifiers: Seq<Modifier>,
    pub multi: bool,
    pub terminal_shape: TerminalShape,
}

/// The contents of a list of steps.
pub open spec fn steps_view(steps: Seq<Step>) -> Seq<StepV>
    decreases steps,
{
    if steps.len() == 0 {
        Seq::empty()
    } else {
        seq![step_view(steps[0])] + steps_view(steps.subrange(1, steps.len() as int))
    }
}

/// The content of a step.
pub open spec fn step_view(step: Step) -> StepV
    decreases step,
{
    match step {
        Step::Child { name, index, descendant } => StepV::Child {
            name: name@,
            index: index_view(index),
            descendant,
        },
        Step::Attribute(name) => StepV::Attribute(name@),
        Step::Text => StepV::Text,
    }
}

/// The content of a selector.
pub open spec fn index_view(index: ChildIndex) -> IndexV
    decreases index,
{
    match index {
        ChildIndex::Auto => IndexV::Auto,
        ChildIndex::Nth(n) => IndexV::Nth(n as nat),
        ChildIndex::Count => IndexV::Count,
        ChildIndex::Each => IndexV::Each,
        ChildIndex::FilterFirst(filter) => IndexV::FilterFirst(filter_view(filter)),
        ChildIndex::FilterAll(filter) => IndexV::FilterAll(filter_view(filter)),
    }
}

/// The content of a filter.
pub open spec fn filter_view(filter: Filter) -> FilterV
    decreases filter,
{
    FilterV {
        path: steps_view(filter.path@),
        op: filter.op,
        value: filter.value@,
        attr_only: match filter.attr_only {
            Some(name) => Some(name@),
            None => None,
        },
    }
}

impl View for FilterValue {
    type V = ValueV;

    open spec fn view(&self) -> ValueV {
        match self {
            FilterValue::Number(s) => ValueV::Number(s@),
            FilterValue::String(s) => ValueV::Text(s@),
            FilterValue::Bool(b) => ValueV::Bool(*b),
        }
    }
}

impl View for Filter {
    type V = FilterV;

    open spec fn view(&self) -> FilterV {
        filter_view(*self)
    }
}

impl View for ChildIndex {
    type V = IndexV;

    open spec fn view(&self) -> IndexV {
        index_view(*self)
    }
}

impl View for Step {
    type V = StepV;

    open spec fn view(&self) -> StepV {
        step_view(*self)
    }
}

impl View for Program {
    type V = ProgramV;

    open spec fn view(&self) -> ProgramV {
        ProgramV {
            steps: steps_view(self.steps@),
            modifiers: self.modifiers@,
            multi: self.multi,
            terminal_shape: self.terminal_shape,
        }
    }
}

impl PartialEq for ChildIndex {
    /// Two selectors without a filter are equal where they select alike; a
    /// filter equals nothing.
    fn eq(&self, other: &Self) -> (r: bool) {
        match (self, other) {
            (ChildIndex::Auto, ChildIndex::Auto) => true,
            (ChildIndex::Count, ChildIndex::Count) => true,
            (ChildIndex::Each, ChildIndex::Each) => true,
            (ChildIndex::Nth(a), ChildIndex::Nth(b)) => *a == *b,
            _ => false,
        }
    }
}

impl vstd::std_specs::cmp::PartialEqSpecImpl for ChildIndex {
    open spec fn obeys_eq_spec() -> bool {
        true
    }

    open spec fn eq_spec(&self, other: &Self) -> bool {
        match (self, other) {
            (ChildIndex::Auto, ChildIndex::Auto) => true,
            (ChildIndex::Count, ChildIndex::Count) => true,
            (ChildIndex::Each, ChildIndex::Each) => true,
            (ChildIndex::Nth(a), ChildIndex::Nth(b)) => *a == *b,
            _ => false,
        }
    }
}

impl Eq for ChildIndex {

}

/// The view of a list of steps, step by step.
pub(crate) proof fn lemma_steps_view(steps: Seq<Step>)
    ensures
        steps_view(steps).len() == steps.len(),
        forall|i: int| 0 <= i < steps.len() ==> #[trigger] steps_view(steps)[i] == step_view(steps[i]),
    decreases steps.len(),
{
    if steps.len() > 0 {
        let rest = steps.subrange(1, steps.len() as int);
        lemma_steps_view(rest);
        assert forall|i: int| 0 <= i < steps.len() implies #[trigger] steps_view(steps)[i]
            == step_view(steps[i]) by {
            if i > 0 {
                assert(steps_view(steps)[i] == steps_view(rest)[i - 1]);
                assert(rest[i - 1] == steps[i]);
            }
        }
    }
}

/// Dropping steps and viewing commute.
pub(crate) proof fn lemma_steps_view_skip(steps: Seq<Step>, n: int)
    requires
        0 <= n <= steps.len(),
    ensures
        steps_view(steps.skip(n)) == steps_view(steps).skip(n),
{
    lemma_steps_view(steps);
    lemma_steps_view(steps.skip(n));
    assert(steps_view(steps.skip(n)) =~= steps_view(steps).skip(n));
}

/// Adding a step and viewing commute.
pub(crate) proof fn lemma_steps_view_push(steps: Seq<Step>, step: Step)
    ensures
        steps_view(steps.push(step)) == steps_view(steps).push(step_view(step)),
{
    lemma_steps_view(steps);
    lemma_steps_view(steps.push(step));
    assert(steps_view(steps.push(step)) =~= steps_view(steps).push(step_view(step)));
}

/// A copy of a name pattern.
fn copy_name(name: &NameMatcher) -> (r: NameMatcher)
    ensures
        r@ == name@,
{
    match name {
        NameMatcher::Exact(s) => NameMatcher::Exact(copy_text(s.as_str())),
        NameMatcher::Glob(s) => NameMatcher::Glob(copy_text(s.as_str())),
    }
}

/// A copy of the value that a filter compares with.
fn copy_value(value: &FilterValue) -> (r: FilterValue)
    ensures
        r@ == value@,
{
    match value {
        FilterValue::Number(s) => FilterValue::Number(copy_text(s.as_str())),
        FilterValue::String(s) => FilterValue::String(copy_text(s.as_str())),
        FilterValue::Bool(b) => FilterValue::Bool(*b),
    }
}

/// A copy of a filter.
fn copy_filter(filter: &Filter) -> (r: Filter)
    ensures
        r@ == filter@,
    decreases filter@,
{
    let attr_only = match &filter.attr_only {
        Some(name) => Some(copy_text(name.as_str())),
        None => None,
    };
    assert(decreases_to!(filter@ => filter@.path));
    Filter {
        path: copy_steps(&filter.path),
        op: filter.op,
        value: copy_value(&filter.value),
        attr_only,
    }
}

/// A copy of a selector.
fn copy_index(index: &ChildIndex) -> (r: ChildIndex)
    ensures
        r@ == index@,
    decreases index@,
{
    match index {
        ChildIndex::Auto => ChildIndex::Auto,
        ChildIndex::Nth(n) => ChildIndex::Nth(*n),
        ChildIndex::Count => ChildIndex::Count,
        ChildIndex::Each => ChildIndex::Each,
        ChildIndex::FilterFirst(filter) => {
            assert(decreases_to!(index@ => index@->FilterFirst_0));
            ChildIndex::FilterFirst(copy_filter(filter))
        },
        ChildIndex::FilterAll(filter) => {
            assert(decreases_to!(index@ => index@->FilterAll_0));
            ChildIndex::FilterAll(copy_filter(filter))
        },
    }
}

/// A copy of a step.
fn copy_step(step: &Step) -> (r: Step)
    ensures
        r@ == step@,
    decreases step@,
{
    match step {
        Step::Child { name, index, descendant } => {
            assert(decreases_to!(step@ => step@->index));
            Step::Child {
                name: copy_name(name),
                index: copy_index(index),
                descendant: *descendant,
            }
        },
        Step::Attribute(name) => Step::Attribute(copy_text(name.as_str())),
        Step::Text => Step::Text,
    }
}

/// A copy of a list of steps.
fn copy_steps(steps: &Vec<Step>) -> (r: Vec<Step>)
    ensures
        steps_view(r@) == steps_view(steps@),
    decreases steps_view(steps@),
{
    let ghost view = steps_view(steps@);
    let mut r: Vec<Step> = Vec::new();
    proof {
        lemma_steps_view(steps@);
    }
    assert(steps_view(r@) =~= view.take(0));
    for k in 0..steps.len()
        invariant
            view == steps_view(steps@),
            view.len() == steps@.len(),
            forall|i: int| 0 <= i < steps@.len() ==> #[trigger] view[i] == step_view(steps@[i]),
            steps_view(r@) == view.take(k as int),
    {
        proof {
            assert(view[k as int] == steps@[k as int]@);
        }
        let step = copy_step(&steps[k]);
        proof {
            lemma_steps_view_push(r@, step);
            assert(view.take(k + 1) =~= view.take(k as int).push(view[k as int]));
        }
        r.push(step);
    }
    assert(view.take(steps@.len() as int) =~= view);
    r
}

impl Clone for Filter {
    fn clone(&self) -> (r: Self)
        ensures
            r@ == self@,
    {
        copy_filter(self)
    }
}

impl Clone for ChildIndex {
    fn clone(&self) -> (r: Self)
        ensures
            r@ == self@,
    {
        copy_index(self)
    }
}

impl Clone for Step {
    fn clone(&self) -> (r: Self)
        ensures
            r@ == self@,
    {
        copy_step(self)
    }
}

impl Clone for Program {
    fn clone(&self) -> (r: Self)
        ensures
            r@ == self@,
    {
        let mut modifiers: Vec<Modifier> = Vec::new();
        for k in 0..self.modifiers.len()
            invariant
                modifiers@ == self.modifiers@.take(k as int),
        {
            modifiers.push(self.modifiers[k]);
            assert(self.modifiers@.take(k + 1) =~= self.modifiers@.take(k as int).push(
                self.modifiers@[k as int],
            ));
        }
        assert(self.modifiers@.take(self.modifiers@.len() as int) =~= self.modifiers@);
        Program {
            steps: copy_steps(&self.steps),
            modifiers,
            multi: self.multi,
            terminal_shape: self.terminal_shape,
        }
    }
}

/// A component of a path.
enum Component {
    Name(NameMatcher),
    Index(usize),
    Hash,
    Attribute(String),
    TextLit,
    Filter { filter: Filter, all: bool },
    Descendant,
}

impl View for Component {
    type V = ComponentV;

    closed spec fn view(&self) -> ComponentV {
        match self {
            Component::Name(name) => ComponentV::Name(name@),
            Component::Index(n) => ComponentV::Index(*n as nat),
            Component::Hash => ComponentV::Hash,
            Component::Attribute(name) => ComponentV::Attribute(name@),
            Component::TextLit => ComponentV::TextLit,
            Component::Filter { filter, all } => ComponentV::Filter { filter: filter@, all: *all },
            Component::Descendant => ComponentV::Descendant,
        }
    }
}

closed spec fn comps_view(comps: Seq<Component>) -> Seq<ComponentV> {
    Seq::new(comps.len(), |i: int| comps[i]@)
}

closed spec fn lists_of(lists: Seq<Vec<char>>) -> Seq<Seq<char>> {
    Seq::new(lists.len(), |i: int| lists[i]@)
}

/// Sections and those behind them.
spec fn joined(head: Seq<Seq<char>>, rest: Option<Seq<Seq<char>>>) -> Option<Seq<Seq<char>>> {
    match rest {
        Some(tail) => Some(head + tail),
        None => None,
    }
}

/// Splits a path into its steps and its modifiers. A `|` counts only outside
/// parentheses and quotes.
fn split_pipe(s: &[char]) -> (r: Option<Vec<Vec<char>>>)
    ensures
        match r {
            Some(parts) => sections(s@, 0, 0, 0, None) == Some(lists_of(parts@)) && parts@.len()
                > 0,
            None => sections(s@, 0, 0, 0, None) is None,
        },
{
    let n = s.len();
    let ghost whole = sections(s@, 0, 0, 0, None);
    let mut parts: Vec<Vec<char>> = Vec::new();
    let mut depth: usize = 0;
    let mut quote: Option<char> = None;
    let mut last: usize = 0;
    let mut i: usize = 0;
    proof {
        assert(lists_of(parts@) =~= Seq::empty());
        if let Some(tail) = whole {
            assert(Seq::<Seq<char>>::empty() + tail =~= tail);
        }
    }
    while i < n
        invariant
            n == s@.len(),
            last <= i <= n,
            depth <= i,
            whole == sections(s@, 0, 0, 0, None),
            whole == joined(
                lists_of(parts@),
                sections(s@, i as int, last as int, depth as nat, quote),
            ),
        decreases n - i,
    {
        let c = s[i];
        if c == '\\' && i + 1 < n {
            i = i + 2;
            continue ;
        }
        if let Some(q) = quote {
            if c == q {
                quote = None;
            }
        } else if c == '"' || c == '\'' {
            quote = Some(c);
        } else if c == '(' {
            depth = depth + 1;
        } else if c == ')' {
            if depth == 0 {
                return None;
            }
            depth = depth - 1;
        } else if c == '|' && depth == 0 {
            let ghost before = parts@;
            let ghost part = s@.subrange(last as int, i as int);
            parts.push(copy_range(s, last, i));
            assert(lists_of(parts@) =~= lists_of(before).push(part));
            proof {
                if let Some(rest) = sections(s@, i + 1, i + 1, 0, None) {
                    assert(lists_of(before) + (seq![part] + rest) =~= lists_of(before).push(part)
                        + rest);
                }
            }
            last = i + 1;
        }
        i = i + 1;
    }
    if depth != 0 {
        return None;
    }
    let ghost before = parts@;
    parts.push(copy_range(s, last, n));
    assert(lists_of(parts@) =~= lists_of(before) + seq![s@.subrange(last as int, n as int)]);
    Some(parts)
}

/// The modifier of a name.
fn modifier_by_name(name: &str) -> (r: Option<Modifier>)
    ensures
        r == modifier_named(name@),
{
    if same_text(name, "reverse") {
        Some(Modifier::Reverse)
    } else if same_text(name, "first") {
        Some(Modifier::First)
    } else if same_text(name, "last") {
        Some(Modifier::Last)
    } else if same_text(name, "count") {
        Some(Modifier::Count)
    } else if same_text(name, "sort") {
        Some(Modifier::Sort)
    } else if same_text(name, "sort_n") || same_text(name, "sortn") {
        Some(Modifier::SortNumeric)
    } else if same_text(name, "unique") || same_text(name, "uniq") {
        Some(Modifier::Unique)
    } else if same_text(name, "flatten") {
        Some(Modifier::Flatten)
    } else if same_text(name, "tostr") {
        Some(Modifier::Tostr)
    } else if same_text(name, "sum") {
        Some(Modifier::Sum)
    } else if same_text(name, "avg") || same_text(name, "mean") {
        Some(Modifier::Avg)
    } else if same_text(name, "min") {
        Some(Modifier::Min)
    } else if same_text(name, "max") {
        Some(Modifier::Max)
    } else {
        None
    }
}

/// The modifier that a section stands for.
fn parse_modifier(section: &[char]) -> (r: Result<Modifier, ParseError>)
    ensures
        match r {
            Ok(modifier) => modifier_of(section@) == Ok::<Modifier, ParseErrorV>(modifier),
            Err(error) => modifier_of(section@) == Err::<Modifier, ParseErrorV>(error@),
        },
{
    let text = trim(section);
    if text.len() == 0 || text[0] != '@' {
        return Err(ParseError::EmptyModifier);
    }
    let rest = copy_range(text.as_slice(), 1, text.len());
    assert(rest@ =~= text@.skip(1));
    let name = string_of(rest.as_slice());
    match modifier_by_name(name.as_str()) {
        Some(modifier) => Ok(modifier),
        None => if rest.len() == 0 {
            Err(ParseError::EmptyModifier)
        } else {
            Err(ParseError::UnknownModifier(name))
        },
    }
}

/// The modifiers that the sections behind the first stand for.
fn parse_modifiers(parts: &Vec<Vec<char>>) -> (r: Result<Vec<Modifier>, ParseError>)
    requires
        parts@.len() > 0,
    ensures
        match r {
            Ok(modifiers) => modifiers_of(lists_of(parts@).skip(1)) == Ok::<
                Seq<Modifier>,
                ParseErrorV,
            >(modifiers@),
            Err(error) => modifiers_of(lists_of(parts@).skip(1)) == Err::<
                Seq<Modifier>,
                ParseErrorV,
            >(error@),
        },
{
    let ghost all = lists_of(parts@).skip(1);
    let mut out: Vec<Modifier> = Vec::new();
    assert(modifiers_of(all.take(0)) == Ok::<Seq<Modifier>, ParseErrorV>(out@)) by {
        assert(out@ =~= Seq::empty());
    }
    let mut k: usize = 1;
    while k < parts.len()
        invariant
            all == lists_of(parts@).skip(1),
            1 <= k <= parts@.len(),
            modifiers_of(all.take(k - 1)) == Ok::<Seq<Modifier>, ParseErrorV>(out@),
        decreases parts@.len() - k,
    {
        assert(all.take(k as int).drop_last() =~= all.take(k - 1));
        assert(all.take(k as int).last() == parts@[k as int]@);
        match parse_modifier(parts[k].as_slice()) {
            Ok(modifier) => {
                out.push(modifier);
            },
            Err(error) => {
                proof {
                    lemma_modifiers_stop(all, k as int, all.len() as int);
                    assert(all.take(all.len() as int) =~= all);
                }
                return Err(error);
            },
        }
        k = k + 1;
    }
    assert(all.take(k - 1) =~= all);
    Ok(out)
}

/// Where one of the sections is no modifier, the sections up to any later one
/// have its error.
proof fn lemma_modifiers_stop(all: Seq<Seq<char>>, n: int, m: int)
    requires
        0 <= n <= m <= all.len(),
        modifiers_of(all.take(n)) is Err,
    ensures
        modifiers_of(all.take(m)) == modifiers_of(all.take(n)),
    decreases m - n,
{
    if n < m {
        lemma_modifiers_stop(all, n, m - 1);
        assert(all.take(m).drop_last() =~= all.take(m - 1));
    }
}

/// The component that a text without separators stands for.
fn parse_component(raw: &[char]) -> (r: Result<Component, ParseError>)
    ensures
        match r {
            Ok(c) => component(raw@) == Ok::<ComponentV, ParseErrorV>(c@),
            Err(error) => component(raw@) == Err::<ComponentV, ParseErrorV>(error@),
        },
{
    let text = string_of(raw);
    if same_text(text.as_str(), "#") {
        return Ok(Component::Hash);
    }
    if same_text(text.as_str(), "#text") {
        return Ok(Component::TextLit);
    }
    if raw.len() > 0 && raw[0] == '@' {
        if raw.len() == 1 {
            return Err(ParseError::EmptyAttribute);
        }
        let rest = copy_range(raw, 1, raw.len());
        assert(rest@ =~= raw@.skip(1));
        let name = string_of(rest.as_slice());
        return Ok(Component::Attribute(unescape(name.as_str())));
    }
    if raw.len() > 0 && has_only_digits(raw) {
        return match parse_digits(raw) {
            Some(n) => if n <= usize::MAX as u64 {
                Ok(Component::Index(n as usize))
            } else {
                Err(ParseError::BadIndex(text))
            },
            None => Err(ParseError::BadIndex(text)),
        };
    }
    Ok(Component::Name(NameMatcher::parse(text.as_str())))
}

/// Where a parenthesis closes.
fn find_closing(s: &[char], from: usize) -> (r: Option<usize>)
    requires
        1 <= from <= s@.len(),
    ensures
        match r {
            Some(i) => closing(s@, from as int, 1, None) == Some(i as int) && from <= i < s@.len(),
            None => closing(s@, from as int, 1, None) is None,
        },
{
    let n = s.len();
    let mut depth: usize = 1;
    let mut quote: Option<char> = None;
    let mut i: usize = from;
    while i < n
        invariant
            n == s@.len(),
            from <= i <= n,
            1 <= depth <= i,
            closing(s@, from as int, 1, None) == closing(s@, i as int, depth as nat, quote),
        decreases n - i,
    {
        let c = s[i];
        if c == '\\' && i + 1 < n {
            i = i + 2;
            continue ;
        }
        if let Some(q) = quote {
            if c == q {
                quote = None;
            }
        } else if c == '"' || c == '\'' {
            quote = Some(c);
        } else if c == '(' {
            depth = depth + 1;
        } else if c == ')' {
            if depth == 1 {
                return Some(i);
            }
            depth = depth - 1;
        }
        i = i + 1;
    }
    None
}

/// Adds the component that was read last to the list, if there is one.
fn flush_component(comps: &mut Vec<Component>, current: &Vec<char>) -> (r: Result<(), ParseError>)
    ensures
        match r {
            Ok(()) => pending(current@) is Ok && comps_view(final(comps)@) == comps_view(
                old(comps)@,
            ) + pending(current@)->Ok_0,
            Err(error) => pending(current@) == Err::<Seq<ComponentV>, ParseErrorV>(error@),
        },
{
    let ghost before = comps@;
    if current.len() > 0 {
        match parse_component(current.as_slice()) {
            Ok(c) => {
                comps.push(c);
                assert(comps_view(comps@) =~= comps_view(before) + seq![c@]);
            },
            Err(error) => {
                return Err(error);
            },
        }
    } else {
        assert(comps_view(before) + Seq::<ComponentV>::empty() =~= comps_view(before));
    }
    Ok(())
}

/// Splits a path into its components. A filter `#(...)` is one component, and
/// the dots inside its parentheses belong to it.
fn tokenize_path(s: &[char]) -> (r: Result<Vec<Component>, ParseError>)
    ensures
        match r {
            Ok(comps) => components(s@, 0, Seq::empty()) == Ok::<Seq<ComponentV>, ParseErrorV>(
                comps_view(comps@),
            ),
            Err(error) => components(s@, 0, Seq::empty()) == Err::<Seq<ComponentV>, ParseErrorV>(
                error@,
            ),
        },
    decreases s@.len(),
{
    let n = s.len();
    let ghost whole = components(s@, 0, Seq::empty());
    let mut comps: Vec<Component> = Vec::new();
    let mut current: Vec<char> = Vec::new();
    let mut i: usize = 0;
    proof {
        assert(current@ =~= Seq::empty());
        assert(comps_view(comps@) =~= Seq::empty());
        if let Ok(tail) = whole {
            assert(Seq::<ComponentV>::empty() + tail =~= tail);
        }
    }
    while i < n
        invariant
            n == s@.len(),
            i <= n,
            whole == components(s@, 0, Seq::empty()),
            whole == followed(comps_view(comps@), components(s@, i as int, current@)),
        decreases n - i,
    {
        let c = s[i];
        let ghost head = comps_view(comps@);
        if c == '\\' {
            let ghost before = current@;
            current.push('\\');
            if i + 1 < n {
                current.push(s[i + 1]);
                assert(current@ =~= before + seq!['\\', s@[i + 1]]);
                i = i + 2;
            } else {
                i = i + 1;
            }
        } else if c == '*' && current.len() == 0 && i + 1 < n && s[i + 1] == '*' {
            let ghost before = comps@;
            comps.push(Component::Descendant);
            assert(comps_view(comps@) =~= head.push(ComponentV::Descendant));
            proof {
                if let Ok(tail) = components(s@, i + 2, current@) {
                    assert(head + (seq![ComponentV::Descendant] + tail) =~= head.push(
                        ComponentV::Descendant,
                    ) + tail);
                }
            }
            i = i + 2;
        } else if c == '#' && i + 1 < n && s[i + 1] == '(' {
            match flush_component(&mut comps, &current) {
                Ok(()) => {},
                Err(error) => {
                    return Err(error);
                },
            }
            let ghost flushed = pending(current@)->Ok_0;
            let close = match find_closing(s, i + 2) {
                Some(close) => close,
                None => {
                    return Err(ParseError::UnmatchedParen);
                },
            };
            let expr = copy_range(s, i + 2, close);
            let all = close + 1 < n && s[close + 1] == '#';
            let next = if all {
                close + 2
            } else {
                close + 1
            };
            let filter = match parse_filter_expr(expr.as_slice()) {
                Ok(filter) => filter,
                Err(error) => {
                    return Err(error);
                },
            };
            let ghost before = comps@;
            let ghost one = ComponentV::Filter { filter: filter@, all };
            comps.push(Component::Filter { filter, all });
            assert(comps_view(comps@) =~= comps_view(before).push(one));
            proof {
                if let Ok(tail) = components(s@, next as int, Seq::empty()) {
                    assert(head + (flushed.push(one) + tail) =~= (head + flushed).push(one) + tail);
                }
            }
            current = Vec::new();
            assert(current@ =~= Seq::empty());
            i = next;
        } else if c == '.' {
            match flush_component(&mut comps, &current) {
                Ok(()) => {},
                Err(error) => {
                    return Err(error);
                },
            }
            proof {
                let flushed = pending(current@)->Ok_0;
                if let Ok(tail) = components(s@, i + 1, Seq::empty()) {
                    assert(head + (flushed + tail) =~= (head + flushed) + tail);
                }
            }
            current = Vec::new();
            assert(current@ =~= Seq::empty());
            i = i + 1;
        } else {
            current.push(c);
            i = i + 1;
        }
    }
    match flush_component(&mut comps, &current) {
        Ok(()) => Ok(comps),
        Err(error) => Err(error),
    }
}

/// Where the operator of a filter expression stands.
fn find_operator(s: &[char]) -> (r: Option<usize>)
    ensures
        match r {
            Some(i) => operator_at(s@, 0, None) == Some(i as int) && i < s@.len(),
            None => operator_at(s@, 0, None) is None,
        },
{
    let n = s.len();
    let mut quote: Option<char> = None;
    let mut i: usize = 0;
    while i < n
        invariant
            n == s@.len(),
            i <= n,
            operator_at(s@, 0, None) == operator_at(s@, i as int, quote),
        decreases n - i,
    {
        let c = s[i];
        if c == '\\' && i + 1 < n {
            i = i + 2;
            continue ;
        }
        if let Some(q) = quote {
            if c == q {
                quote = None;
            }
        } else if c == '"' || c == '\'' {
            quote = Some(c);
        } else if c == '=' || c == '!' || c == '<' || c == '>' || c == '%' {
            return Some(i);
        }
        i = i + 1;
    }
    None
}

/// The operator at the start of a text, and its length.
fn parse_op(s: &[char]) -> (r: Option<(FilterOp, usize)>)
    ensures
        match r {
            Some((op, width)) => operator(s@) == Some((op, width as int)) && width <= s@.len(),
            None => operator(s@) is None,
        },
{
    if s.len() == 0 {
        return None;
    }
    let first = s[0];
    if s.len() > 1 {
        let second = s[1];
        if first == '=' && second == '=' {
            return Some((FilterOp::Eq, 2));
        }
        if first == '!' && second == '=' {
            return Some((FilterOp::Ne, 2));
        }
        if first == '<' && second == '=' {
            return Some((FilterOp::Le, 2));
        }
        if first == '>' && second == '=' {
            return Some((FilterOp::Ge, 2));
        }
        if first == '!' && second == '%' {
            return Some((FilterOp::GlobNotMatch, 2));
        }
    }
    if first == '=' {
        Some((FilterOp::Eq, 1))
    } else if first == '<' {
        Some((FilterOp::Lt, 1))
    } else if first == '>' {
        Some((FilterOp::Gt, 1))
    } else if first == '%' {
        Some((FilterOp::GlobMatch, 1))
    } else {
        None
    }
}

/// The value that a text in a filter stands for.
fn parse_filter_value(s: &[char]) -> (r: FilterValue)
    ensures
        r@ == filter_value(s@),
{
    let n = s.len();
    if n >= 2 && (s[0] == '"' && s[n - 1] == '"' || s[0] == '\'' && s[n - 1] == '\'') {
        let inner = copy_range(s, 1, n - 1);
        let text = string_of(inner.as_slice());
        return FilterValue::String(unescape(text.as_str()));
    }
    let text = string_of(s);
    if same_text(text.as_str(), "true") {
        FilterValue::Bool(true)
    } else if same_text(text.as_str(), "false") {
        FilterValue::Bool(false)
    } else if numeral_chars(s) {
        FilterValue::Number(text)
    } else {
        FilterValue::String(text)
    }
}

/// The filter that an expression like `price>10` stands for.
fn parse_filter_expr(s: &[char]) -> (r: Result<Filter, ParseError>)
    ensures
        match r {
            Ok(filter) => filter_expr(s@) == Ok::<FilterV, ParseErrorV>(filter@),
            Err(error) => filter_expr(s@) == Err::<FilterV, ParseErrorV>(error@),
        },
    decreases s@.len(),
{
    let n = s.len();
    let k = match find_operator(s) {
        Some(k) => k,
        None => {
            return Err(ParseError::FilterMissingOp(string_of(s)));
        },
    };
    let tail = copy_range(s, k, n);
    assert(tail@ =~= s@.skip(k as int));
    let (op, width) = match parse_op(tail.as_slice()) {
        Some(found) => found,
        None => {
            return Err(ParseError::FilterMissingOp(string_of(tail.as_slice())));
        },
    };
    let head = copy_range(s, 0, k);
    assert(head@ =~= s@.take(k as int));
    let path_text = trim(head.as_slice());
    proof {
        lemma_trimmed_len(s@.take(k as int));
    }
    let value_text = copy_range(s, k + width, n);
    assert(value_text@ =~= s@.skip(k + width));
    let value_text = trim(value_text.as_slice());
    if path_text.len() == 0 {
        return Err(ParseError::EmptyPath);
    }
    let comps = match tokenize_path(path_text.as_slice()) {
        Ok(comps) => comps,
        Err(error) => {
            return Err(error);
        },
    };
    let (path, _) = match build_steps(comps) {
        Ok(built) => built,
        Err(error) => {
            return Err(error);
        },
    };
    let value = parse_filter_value(value_text.as_slice());
    proof {
        lemma_steps_view(path@);
    }
    let mut attr_only: Option<String> = None;
    if path.len() == 1 {
        assert(steps_view(path@)[0] == path@[0]@);
        if let Step::Attribute(name) = &path[0] {
            attr_only = Some(copy_text(name.as_str()));
        }
    }
    Ok(Filter { path, op, value, attr_only })
}

/// Steps and those behind them.
spec fn onto(
    steps: Seq<StepV>,
    multi: bool,
    rest: Result<BuiltV, ParseErrorV>,
) -> Result<BuiltV, ParseErrorV> {
    match rest {
        Ok(built) => Ok(BuiltV { steps: steps + built.steps, multi: multi || built.multi }),
        Err(error) => Err(error),
    }
}

proof fn lemma_onto(
    steps: Seq<StepV>,
    multi: bool,
    step: StepV,
    more: bool,
    rest: Result<BuiltV, ParseErrorV>,
)
    ensures
        onto(steps, multi, stepped(step, more, rest)) == onto(
            steps.push(step),
            multi || more,
            rest,
        ),
{
    if let Ok(built) = rest {
        assert(steps + (seq![step] + built.steps) =~= steps.push(step) + built.steps);
    }
}

/// The components of a list from the last to the first.
fn reversed_comps(list: Vec<Component>) -> (r: Vec<Component>)
    ensures
        r@ == list@.reverse(),
{
    let mut list = list;
    let ghost all = list@;
    let mut r: Vec<Component> = Vec::new();
    while list.len() > 0
        invariant
            list@.len() <= all.len(),
            list@ == all.take(list@.len() as int),
            r@ == all.skip(list@.len() as int).reverse(),
        decreases list@.len(),
    {
        let ghost n = list@.len() as int;
        assert(list@[n - 1] == all[n - 1]);
        if let Some(c) = list.pop() {
            assert(list@ =~= all.take(n - 1));
            r.push(c);
            assert(all.skip(n - 1).reverse() =~= all.skip(n).reverse().push(all[n - 1]));
        }
    }
    assert(all.skip(0) =~= all);
    r
}

/// The components that a stack holds, from its top on.
closed spec fn stack_view(stack: Seq<Component>) -> Seq<ComponentV> {
    comps_view(stack).reverse()
}

proof fn lemma_stack(stack: Seq<Component>)
    ensures
        stack_view(stack).len() == stack.len(),
        stack.len() > 0 ==> stack_view(stack)[0] == stack.last()@ && stack_view(stack).skip(1)
            == stack_view(stack.drop_last()),
        stack.len() > 1 ==> stack_view(stack)[1] == stack[stack.len() - 2]@ && stack_view(
            stack,
        ).skip(2) == stack_view(stack.drop_last().drop_last()),
        stack.len() > 2 ==> stack_view(stack)[2] == stack[stack.len() - 3]@,
{
    if stack.len() > 0 {
        assert(stack_view(stack).skip(1) =~= stack_view(stack.drop_last()));
    }
    if stack.len() > 1 {
        assert(stack_view(stack).skip(2) =~= stack_view(stack.drop_last().drop_last()));
    }
}

/// The selector behind a name, which is taken off the stack, and whether it
/// selects several elements explicitly.
fn take_selector(stack: &mut Vec<Component>) -> (r: (ChildIndex, bool))
    ensures
        ({
            let all = stack_view(old(stack)@);
            let rest = stack_view(final(stack)@);
            match (if all.len() > 0 {
                Some(all[0])
            } else {
                None
            }) {
                Some(ComponentV::Index(n)) => rest == all.skip(1) && r.0@ == IndexV::Nth(n)
                    && !r.1,
                Some(ComponentV::Hash) => rest == all.skip(1) && (if all.len() > 1 {
                    r.0@ == IndexV::Each && r.1
                } else {
                    r.0@ == IndexV::Count && !r.1
                }),
                Some(ComponentV::Filter { filter, all: every }) => rest == all.skip(1) && r.0@
                    == (if every {
                    IndexV::FilterAll(filter)
                } else {
                    IndexV::FilterFirst(filter)
                }) && r.1 == every,
                _ => rest == all && r.0@ == IndexV::Auto && !r.1,
            }
        }),
        final(stack)@.len() <= old(stack)@.len(),
{
    proof {
        lemma_stack(stack@);
    }
    match stack.pop() {
        Some(Component::Index(n)) => (ChildIndex::Nth(n), false),
        Some(Component::Hash) => if stack.len() > 0 {
            (ChildIndex::Each, true)
        } else {
            (ChildIndex::Count, false)
        },
        Some(Component::Filter { filter, all }) => if all {
            (ChildIndex::FilterAll(filter), true)
        } else {
            (ChildIndex::FilterFirst(filter), false)
        },
        Some(other) => {
            stack.push(other);
            assert(stack@ =~= old(stack)@);
            (ChildIndex::Auto, false)
        },
        None => (ChildIndex::Auto, false),
    }
}

/// The steps that components stand for, and whether one of them selects
/// several elements explicitly.
fn build_steps(comps: Vec<Component>) -> (r: Result<(Vec<Step>, bool), ParseError>)
    ensures
        match r {
            Ok((steps, multi)) => steps_of(comps_view(comps@)) == Ok::<BuiltV, ParseErrorV>(
                BuiltV { steps: steps_view(steps@), multi },
            ),
            Err(error) => steps_of(comps_view(comps@)) == Err::<BuiltV, ParseErrorV>(error@),
        },
{
    let ghost whole = steps_of(comps_view(comps@));
    let mut stack = reversed_comps(comps);
    assert(stack_view(stack@) =~= comps_view(comps@));
    let mut steps: Vec<Step> = Vec::new();
    let mut multi = false;
    proof {
        assert(steps_view(steps@) =~= Seq::empty());
        if let Ok(built) = whole {
            assert(Seq::<StepV>::empty() + built.steps =~= built.steps);
        }
    }
    while stack.len() > 0
        invariant
            whole == steps_of(comps_view(comps@)),
            whole == onto(steps_view(steps@), multi, steps_of(stack_view(stack@))),
        decreases stack@.len(),
    {
        let ghost all = stack_view(stack@);
        let ghost view = steps_view(steps@);
        let ghost multi0 = multi;
        let ghost stack0 = stack@;
        proof {
            lemma_stack(stack@);
        }
        let last = stack.len() == 1;
        match stack.pop() {
            Some(Component::Name(name)) => {
                let ghost after_name = stack_view(stack@);
                proof {
                    lemma_stack(stack@);
                    assert(after_name == all.skip(1));
                    if all.len() > 1 {
                        assert(after_name.skip(1) =~= all.skip(2));
                    }
                }
                let (index, several) = take_selector(&mut stack);
                let step = Step::Child { name, index, descendant: false };
                proof {
                    lemma_steps_view_push(steps@, step);
                    lemma_onto(view, multi0, step@, several, steps_of(stack_view(stack@)));
                    assert(step@ == child(name@, index@));
                }
                steps.push(step);
                multi = multi || several;
            },
            Some(Component::Descendant) => {
                match stack.pop() {
                    Some(Component::Name(name)) => {
                        if stack.len() > 0 {
                            let top = stack.len() - 1;
                            assert(all[2] == stack@[top as int]@);
                            match &stack[top] {
                                Component::Index(_) => {
                                    return Err(ParseError::DescendantWithIndex);
                                },
                                Component::Hash => {
                                    return Err(ParseError::DescendantWithIndex);
                                },
                                Component::Filter { .. } => {
                                    return Err(ParseError::DescendantWithIndex);
                                },
                                _ => {},
                            }
                        }
                        let step = Step::Child { name, index: ChildIndex::Each, descendant: true };
                        proof {
                            lemma_steps_view_push(steps@, step);
                            lemma_onto(view, multi0, step@, true, steps_of(stack_view(stack@)));
                        }
                        steps.push(step);
                        multi = true;
                    },
                    _ => {
                        return Err(ParseError::DescendantWithoutName);
                    },
                }
            },
            Some(Component::Attribute(name)) => {
                if !last {
                    return Err(ParseError::AttributeNotTerminal);
                }
                let step = Step::Attribute(name);
                proof {
                    lemma_steps_view_push(steps@, step);
                    assert(view + seq![step@] =~= view.push(step@));
                    assert(view.push(step@) + Seq::<StepV>::empty() =~= view.push(step@));
                }
                steps.push(step);
            },
            Some(Component::TextLit) => {
                if !last {
                    return Err(ParseError::TextNotTerminal);
                }
                let step = Step::Text;
                proof {
                    lemma_steps_view_push(steps@, step);
                    assert(view + seq![step@] =~= view.push(step@));
                    assert(view.push(step@) + Seq::<StepV>::empty() =~= view.push(step@));
                }
                steps.push(step);
            },
            Some(Component::Index(_)) => {
                return Err(ParseError::OrphanIndex);
            },
            Some(Component::Hash) => {
                return Err(ParseError::OrphanHash);
            },
            Some(Component::Filter { .. }) => {
                return Err(ParseError::OrphanHash);
            },
            None => {},
        }
    }
    assert(steps_view(steps@) + Seq::<StepV>::empty() =~= steps_view(steps@));
    Ok((steps, multi))
}

/// Whether modifiers are a single count.
fn is_single_count(modifiers: &Vec<Modifier>) -> (r: bool)
    ensures
        r == (modifiers@ =~= seq![Modifier::Count]),
{
    modifiers.len() == 1 && modifiers[0] == Modifier::Count
}

/// Whether a count is among the modifiers.
fn counts(modifiers: &Vec<Modifier>) -> (r: bool)
    ensures
        r == modifiers@.contains(Modifier::Count),
{
    for i in 0..modifiers.len()
        invariant
            forall|j: int| 0 <= j < i ==> modifiers@[j] != Modifier::Count,
    {
        if modifiers[i] == Modifier::Count {
            assert(modifiers@[i as int] == Modifier::Count);
            return true;
        }
    }
    false
}

/// How elements at the end of a path are captured.
fn infer_terminal_shape(steps: &Vec<Step>, modifiers: &Vec<Modifier>) -> (r: TerminalShape)
    ensures
        r == shape_of(steps_view(steps@), modifiers@),
{
    proof {
        lemma_steps_view(steps@);
    }
    if steps.len() == 0 {
        return TerminalShape::Element;
    }
    let last = steps.len() - 1;
    assert(steps_view(steps@).last() == steps@[last as int]@);
    match &steps[last] {
        Step::Child { index, .. } => {
            if is_single_count(modifiers) {
                return TerminalShape::Count;
            }
            let several = match index {
                ChildIndex::Nth(_) => false,
                ChildIndex::Count => false,
                _ => true,
            };
            if modifiers.len() > 0 && !counts(modifiers) && several {
                TerminalShape::Text
            } else {
                TerminalShape::Element
            }
        },
        _ => TerminalShape::Element,
    }
}

/// Takes away the white space before a pipe.
fn trim_before_pipe(s: &[char]) -> (r: Vec<char>)
    ensures
        r@ == before_pipe(s@),
{
    let mut end: usize = s.len();
    assert(s@.take(end as int) =~= s@);
    while end > 0 && s[end - 1].is_whitespace() && !ends_in_escape(s, end - 1)
        invariant
            end <= s@.len(),
            before_pipe(s@) == before_pipe(s@.take(end as int)),
        decreases end,
    {
        assert(s@.take(end as int).drop_last() =~= s@.take(end - 1));
        end = end - 1;
    }
    proof {
        if end > 0 {
            assert(s@.take(end as int).drop_last() =~= s@.take(end - 1));
        }
    }
    let r = copy_range(s, 0, end);
    assert(r@ =~= s@.take(end as int));
    r
}

/// Whether the first `n` characters end in a backslash that escapes what follows.
fn ends_in_escape(s: &[char], n: usize) -> (r: bool)
    requires
        n <= s@.len(),
    ensures
        r == (backslashes(s@.take(n as int)) % 2 == 1),
{
    let mut k: usize = n;
    let mut odd = false;
    while k > 0 && s[k - 1] == '\\'
        invariant
            k <= n <= s@.len(),
            backslashes(s@.take(n as int)) == n - k + backslashes(s@.take(k as int)),
            odd == ((n - k) % 2 == 1),
        decreases k,
    {
        assert(s@.take(k as int).drop_last() =~= s@.take(k - 1));
        k = k - 1;
        odd = !odd;
    }
    assert(backslashes(s@.take(k as int)) == 0) by {
        if k > 0 {
            assert(s@.take(k as int).last() == s@[k - 1]);
        }
    }
    odd
}

/// Compiles a path, without the path in the error.
fn compile_inner(path: &str) -> (r: Result<Program, ParseError>)
    ensures
        match r {
            Ok(program) => compiled(path@) == Ok::<ProgramV, ParseErrorV>(program@),
            Err(error) => compiled(path@) == Err::<ProgramV, ParseErrorV>(error@),
        },
{
    let chars = chars_of(path);
    let parts = match split_pipe(chars.as_slice()) {
        Some(parts) => parts,
        None => {
            return Err(ParseError::UnmatchedParen);
        },
    };
    assert(lists_of(parts@)[0] == parts@[0]@);
    let main = if parts.len() > 1 {
        trim_before_pipe(parts[0].as_slice())
    } else {
        copy_range(parts[0].as_slice(), 0, parts[0].len())
    };
    assert(main@ =~= main_section(lists_of(parts@)));
    let comps = match tokenize_path(main.as_slice()) {
        Ok(comps) => comps,
        Err(error) => {
            return Err(error);
        },
    };
    assert(comps_view(comps@).len() == comps@.len());
    if comps.len() == 0 {
        return Err(ParseError::EmptyPath);
    }
    let (steps, multi) = match build_steps(comps) {
        Ok(built) => built,
        Err(error) => {
            return Err(error);
        },
    };
    let modifiers = match parse_modifiers(&parts) {
        Ok(modifiers) => modifiers,
        Err(error) => {
            return Err(error);
        },
    };
    let terminal_shape = infer_terminal_shape(&steps, &modifiers);
    Ok(Program { steps, modifiers, multi, terminal_shape })
}

/// Compiles a path.
pub fn compile(path: &str) -> (r: Result<Program, PathError>)
    ensures
        match r {
            Ok(program) => compiled(path@) == Ok::<ProgramV, ParseErrorV>(program@),
            Err(error) => compiled(path@) == Err::<ProgramV, ParseErrorV>(error.kind@)
                && error.path@ == path@,
        },
{
    match compile_inner(path) {
        Ok(program) => Ok(program),
        Err(kind) => Err(PathError { kind, path: copy_text(path) }),
    }
}

impl ParseError {
    /// The error in words.
    pub fn message(&self) -> (s: String)
        ensures
            s@ == kind_message(self@),
    {
        match self {
            ParseError::EmptyPath => copy_text("empty path"),
            ParseError::BadIndex(s) => worded("bad index: ", s.as_str()),
            ParseError::OrphanIndex => copy_text("index without preceding name"),
            ParseError::OrphanHash => copy_text("# without preceding name"),
            ParseError::AttributeNotTerminal => copy_text("@attr must be the last component"),
            ParseError::TextNotTerminal => copy_text("#text must be the last component"),
            ParseError::EmptyAttribute => copy_text("@ must be followed by an attribute name"),
            ParseError::UnmatchedParen => copy_text("unmatched ( in filter"),
            ParseError::FilterMissingOp(s) => worded(
                "filter expression missing operator: ",
                s.as_str(),
            ),
            ParseError::FilterBadValue(s) => worded("filter value parse error: ", s.as_str()),
            ParseError::UnknownModifier(s) => worded("unknown modifier: @", s.as_str()),
            ParseError::EmptyModifier => copy_text("modifier name is empty"),
            ParseError::DescendantWithoutName => copy_text(
                "** must be followed by an element name",
            ),
            ParseError::DescendantWithIndex => copy_text(
                "** does not accept an explicit selector (no index/#/filter)",
            ),
        }
    }
}

/// One text behind another.
fn worded(head: &str, tail: &str) -> (s: String)
    ensures
        s@ == head@ + tail@,
{
    let mut s = copy_text(head);
    push_text(&mut s, tail);
    s
}

/// Where parentheses stop matching in a path.
fn find_unbalanced_paren(path: &str) -> (r: Option<usize>)
    ensures
        r is Some <==> unbalanced_at(encode_utf8(path@), 0, 0, None, None) is Some,
        r matches Some(i) ==> unbalanced_at(encode_utf8(path@), 0, 0, None, None) == Some(i as int)
            && i < encode_utf8(path@).len(),
{
    let bytes = path.as_bytes();
    let n = bytes.len();
    let mut depth: usize = 0;
    let mut quote: Option<u8> = None;
    let mut last_open: Option<usize> = None;
    let mut i: usize = 0;
    while i < n
        invariant
            n == bytes@.len(),
            bytes@ == encode_utf8(path@),
            i <= n,
            depth <= i,
            last_open matches Some(k) ==> k < n,
            unbalanced_at(bytes@, 0, 0, None, None) == unbalanced_at(
                bytes@,
                i as int,
                depth as nat,
                quote,
                match last_open {
                    Some(k) => Some(k as int),
                    None => None,
                },
            ),
        decreases n - i,
    {
        let c = bytes[i];
        if c == 92 && i + 1 < n {
            i = i + 2;
            continue ;
        }
        if let Some(q) = quote {
            if c == q {
                quote = None;
            }
        } else if c == 34 || c == 39 {
            quote = Some(c);
        } else if c == 40 {
            if depth == 0 {
                last_open = Some(i);
            }
            depth = depth + 1;
        } else if c == 41 {
            if depth == 0 {
                return Some(i);
            }
            depth = depth - 1;
        }
        i = i + 1;
    }
    last_open
}

/// The byte offset at which a text first stands in a path.
fn find_text(path: &str, needle: &str) -> (r: Option<usize>)
    ensures
        r is Some <==> offset_of(encode_utf8(path@), encode_utf8(needle@)) is Some,
        r matches Some(i) ==> offset_of(encode_utf8(path@), encode_utf8(needle@)) == Some(i as int)
            && i <= encode_utf8(path@).len(),
{
    let hay = path.as_bytes();
    let bytes = needle.as_bytes();
    match find_bytes(hay, bytes) {
        Some(i) => {
            proof {
                assert(first_offset(hay@, bytes@, i as int));
                assert forall|k: int| first_offset(hay@, bytes@, k) implies k == i by {
                    assert(occurs_at(hay@, bytes@, k));
                    assert(occurs_at(hay@, bytes@, i as int));
                }
            }
            Some(i)
        },
        None => {
            assert forall|k: int| !first_offset(hay@, bytes@, k) by {
                assert(!occurs_at(hay@, bytes@, k));
            }
            None
        },
    }
}

impl PathError {
    /// The byte offset in the path at which the error can be pointed out.
    fn estimated_pos(&self) -> (r: Option<usize>)
        ensures
            r is Some <==> error_offset(self.kind@, self.path@) is Some,
            r matches Some(i) ==> error_offset(self.kind@, self.path@) == Some(i as int) && i
                <= encode_utf8(self.path@).len(),
    {
        let path = self.path.as_str();
        match &self.kind {
            ParseError::UnmatchedParen => find_unbalanced_paren(path),
            ParseError::UnknownModifier(name) => {
                let needle = worded("@", name.as_str());
                find_text(path, needle.as_str())
            },
            ParseError::FilterMissingOp(s) => find_text(path, s.as_str()),
            ParseError::FilterBadValue(s) => find_text(path, s.as_str()),
            ParseError::BadIndex(s) => find_text(path, s.as_str()),
            ParseError::AttributeNotTerminal => find_text(path, "@"),
            ParseError::TextNotTerminal => find_text(path, "#text"),
            ParseError::EmptyAttribute => find_text(path, "@"),
            ParseError::EmptyModifier => find_text(path, "|"),
            ParseError::DescendantWithoutName => find_text(path, "**"),
            ParseError::DescendantWithIndex => find_text(path, "**"),
            ParseError::OrphanIndex => None,
            ParseError::OrphanHash => None,
            ParseError::EmptyPath => None,
        }
    }

    /// The error in words, with the path and a caret under the offending byte
    /// where that is known.
    pub fn message(&self) -> (s: String)
        ensures
            s@ == path_message(self.kind@, self.path@),
    {
        let mut s = self.kind.message();
        push_text(&mut s, "\n  in path: ");
        let quoted = quote(self.path.as_str());
        push_text(&mut s, quoted.as_str());
        if let Some(pos) = self.estimated_pos() {
            push_text(&mut s, "\n");
            push_spaces(&mut s, 12);
            push_spaces(&mut s, pos);
            assert(s@ =~= kind_message(self.kind@) + "\n  in path: "@ + in_quotes(self.path@)
                + "\n"@ + spaces((12 + pos) as nat));
            push_text(&mut s, "^");
        }
        s
    }
}

/// Appends spaces.
fn push_spaces(s: &mut String, n: usize)
    ensures
        final(s)@ == old(s)@ + spaces(n as nat),
{
    let ghost before = s@;
    assert(before + spaces(0) =~= before);
    for i in 0..n
        invariant
            s@ == before + spaces(i as nat),
    {
        s.push(' ');
        assert(s@ =~= before + spaces((i + 1) as nat));
    }
}

} // verus!
