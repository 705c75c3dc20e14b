//! Queries by path: compiled paths are kept, and a path is evaluated against
//! what a result holds.

use std::sync::Arc;

use vstd::prelude::*;

use crate::engine::{
    is_outcome, run_with_readings, run_within_with_readings, selected, selected_within, EngineError,
    ErrorV,
};
use crate::grammar::compiled;
use crate::item::{items_view, Item};
use crate::many::{
    each_modified, is_many_outcome, lists_view, many_selected, many_selected_within, programs_view,
    run_many_with_readings, run_many_within_with_readings,
};
use crate::number::{Readings, ReadingsV};
use crate::path::{compile, ParseErrorV, PathError, Program, ProgramV};
use crate::result::{held_view, Held, HeldV};
use crate::semantics::{ItemV, SinkV};
use crate::text::{chars_of, copy_text, same_text};

verus! {

/// How many compiled paths are kept.
pub const PATH_CACHE_CAP: usize = 512;

/// `Arc::clone` gives another pointer to the same value.
#[verifier::external_body]
fn share(program: &Arc<Program>) -> (r: Arc<Program>)
    ensures
        r == *program,
{
    Arc::clone(program)
}

/// Compiled paths by their text. Of a path that is asked for again the program
/// is at hand.
pub struct PathCache {
    entries: Vec<(String, Arc<Program>)>,
}

/// The paths that a cache keeps once a path has been asked for: a new one that
/// is valid comes last, and where there are too many, alone.
pub open spec fn kept_paths(paths: Seq<Seq<char>>, path: Seq<char>) -> Seq<Seq<char>> {
    if paths.contains(path) || compiled(path) is Err {
        paths
    } else if paths.len() >= PATH_CACHE_CAP {
        seq![path]
    } else {
        paths.push(path)
    }
}

impl PathCache {
    /// The paths that are kept, in the order in which they came.
    pub closed spec fn paths(self) -> Seq<Seq<char>> {
        Seq::new(self.entries@.len(), |i: int| self.entries@[i].0@)
    }

    /// Every path is kept with the program that it stands for, and there are
    /// not too many.
    pub closed spec fn wf(self) -> bool {
        &&& self.entries@.len() <= PATH_CACHE_CAP
        &&& forall|i: int|
            0 <= i < self.entries@.len() ==> compiled((#[trigger] self.entries@[i]).0@) == Ok::<
                ProgramV,
                ParseErrorV,
            >(self.entries@[i].1@)
    }

    /// A cache never keeps more paths than its capacity.
    pub proof fn law_cache_is_bounded(self)
        requires
            self.wf(),
        ensures
            self.paths().len() <= PATH_CACHE_CAP,
    {
    }

    /// A cache that keeps no path.
    pub fn new() -> (r: Self)
        ensures
            r.wf(),
            r.paths() == Seq::<Seq<char>>::empty(),
    {
        let r = PathCache { entries: Vec::new() };
        assert(r.paths() =~= Seq::<Seq<char>>::empty());
        r
    }

    /// The program that is kept for a path.
    fn find(&self, path: &str) -> (r: Option<Arc<Program>>)
        requires
            self.wf(),
        ensures
            match r {
                Some(program) => self.paths().contains(path@) && compiled(path@) == Ok::<
                    ProgramV,
                    ParseErrorV,
                >(program@),
                None => !self.paths().contains(path@),
            },
    {
        for i in 0..self.entries.len()
            invariant
                self.wf(),
                forall|j: int| 0 <= j < i ==> self.paths()[j] != path@,
        {
            let entry = &self.entries[i];
            assert(self.paths()[i as int] == entry.0@);
            if same_text(entry.0.as_str(), path) {
                return Some(share(&entry.1));
            }
        }
        None
    }

    /// Compiles a path, or gives the program that is kept for it. A program
    /// that is new is kept; where there are too many, the others are dropped
    /// first.
    pub fn compile_path(&mut self, path: &str) -> (r: Result<Arc<Program>, PathError>)
        requires
            old(self).wf(),
        ensures
            final(self).wf(),
            match r {
                Ok(program) => compiled(path@) == Ok::<ProgramV, ParseErrorV>(program@),
                Err(error) => compiled(path@) == Err::<ProgramV, ParseErrorV>(error.kind@)
                    && error.path@ == path@,
            },
            final(self).paths() == kept_paths(old(self).paths(), path@),
    {
        if let Some(program) = self.find(path) {
            return Ok(program);
        }
        match compile(path) {
            Ok(program) => {
                let program = Arc::new(program);
                if self.entries.len() >= PATH_CACHE_CAP {
                    self.entries.clear();
                }
                let ghost before = self.entries@;
                self.entries.push((copy_text(path), share(&program)));
                proof {
                    assert forall|i: int| 0 <= i < self.entries@.len() implies compiled(
                        (#[trigger] self.entries@[i]).0@,
                    ) == Ok::<ProgramV, ParseErrorV>(self.entries@[i].1@) by {
                        if i < before.len() {
                            assert(self.entries@[i] == before[i]);
                        }
                    }
                    assert(self.paths() =~= if old(self).paths().len() >= PATH_CACHE_CAP {
                        seq![path@]
                    } else {
                        old(self).paths().push(path@)
                    });
                }
                Ok(program)
            },
            Err(error) => Err(error),
        }
    }
}

/// Why a query by path has no result.
#[derive(Debug)]
pub enum QueryError {
    /// The result holds several things; one of them has to be picked first.
    Several,
    Path(PathError),
    Engine(EngineError),
}

/// The content of a [`QueryError`].
pub enum QueryErrorV {
    Several,
    Path(ParseErrorV, Seq<char>),
    Engine(ErrorV),
}

impl View for QueryError {
    type V = QueryErrorV;

    open spec fn view(&self) -> QueryErrorV {
        match self {
            QueryError::Several => QueryErrorV::Several,
            QueryError::Path(error) => QueryErrorV::Path(error.kind@, error.path@),
            QueryError::Engine(error) => QueryErrorV::Engine(error@),
        }
    }
}

/// The outcome of a query, where the evaluation of its program decides.
pub open spec fn evaluated<T>(r: Result<T, ErrorV>) -> Result<T, QueryErrorV> {
    match r {
        Ok(found) => Ok(found),
        Err(error) => Err(QueryErrorV::Engine(error)),
    }
}

/// What a program selects in what a result holds: in a document from its top,
/// in a captured element from inside it, and in a scalar nothing.
pub open spec fn held_selected(held: HeldV, program: ProgramV, known: ReadingsV) -> Result<
    Seq<ItemV>,
    ErrorV,
> {
    match held {
        HeldV::Document(bytes) => selected(program, bytes, known),
        HeldV::Fragment(bytes) => selected_within(program, bytes, known),
        HeldV::Scalar(_) => Ok(Seq::empty()),
    }
}

/// What a path selects in a document. The empty path selects nothing.
pub open spec fn got(xml: Seq<u8>, path: Seq<char>, known: ReadingsV) -> Result<
    Seq<ItemV>,
    QueryErrorV,
> {
    if path.len() == 0 {
        Ok(Seq::empty())
    } else {
        match compiled(path) {
            Ok(program) => evaluated(selected(program, xml, known)),
            Err(kind) => Err(QueryErrorV::Path(kind, path)),
        }
    }
}

/// What a path selects in what a result holds, which has to be at most one
/// thing.
pub open spec fn got_in(items: Seq<HeldV>, path: Seq<char>, known: ReadingsV) -> Result<
    Seq<ItemV>,
    QueryErrorV,
> {
    if items.len() > 1 {
        Err(QueryErrorV::Several)
    } else if path.len() == 0 {
        Ok(Seq::empty())
    } else {
        match compiled(path) {
            Ok(program) => if items.len() == 0 {
                Ok(Seq::empty())
            } else {
                evaluated(held_selected(items[0], program, known))
            },
            Err(kind) => Err(QueryErrorV::Path(kind, path)),
        }
    }
}

/// Whether the result of a query is what is meant.
pub open spec fn is_got(
    r: Result<Vec<Item>, QueryError>,
    meant: Result<Seq<ItemV>, QueryErrorV>,
) -> bool {
    match r {
        Ok(items) => meant == Ok::<Seq<ItemV>, QueryErrorV>(items_view(items@)),
        Err(error) => meant == Err::<Seq<ItemV>, QueryErrorV>(error@),
    }
}

/// No result entries.
fn no_items() -> (r: Vec<Item>)
    ensures
        items_view(r@) == Seq::<ItemV>::empty(),
{
    let none: Vec<Item> = Vec::new();
    assert(items_view(none@) =~= Seq::<ItemV>::empty());
    none
}

/// Evaluates a program against one thing that a result holds.
fn query_held(held: &Held, program: &Program, known: &Readings) -> (r: Result<
    Vec<Item>,
    EngineError,
>)
    ensures
        is_outcome(r, held_selected(held@, program@, known@)),
{
    match held {
        Held::Document(bytes) => run_with_readings(program, bytes, known),
        Held::Fragment(bytes) => run_within_with_readings(program, bytes, known),
        Held::Scalar(_) => Ok(no_items()),
    }
}

/// Whether a path is empty.
fn is_empty(path: &str) -> (r: bool)
    ensures
        r == (path@.len() == 0),
{
    let chars = chars_of(path);
    chars.len() == 0
}

/// Evaluates a path against a document.
pub fn get(xml: &[u8], path: &str, cache: &mut PathCache, known: &Readings) -> (r: Result<
    Vec<Item>,
    QueryError,
>)
    requires
        old(cache).wf(),
    ensures
        final(cache).wf(),
        final(cache).paths() == if path@.len() == 0 {
            old(cache).paths()
        } else {
            kept_paths(old(cache).paths(), path@)
        },
        is_got(r, got(xml@, path@, known@)),
{
    if is_empty(path) {
        return Ok(no_items());
    }
    match cache.compile_path(path) {
        Ok(program) => match run_with_readings(&program, xml, known) {
            Ok(items) => Ok(items),
            Err(error) => Err(QueryError::Engine(error)),
        },
        Err(error) => Err(QueryError::Path(error)),
    }
}

/// Evaluates a path against what a result holds. Scalars, and results that
/// hold nothing, have nothing inside; the empty path selects nothing.
pub fn get_in(items: &[Held], path: &str, cache: &mut PathCache, known: &Readings) -> (r: Result<
    Vec<Item>,
    QueryError,
>)
    requires
        old(cache).wf(),
    ensures
        final(cache).wf(),
        final(cache).paths() == if items@.len() > 1 || path@.len() == 0 {
            old(cache).paths()
        } else {
            kept_paths(old(cache).paths(), path@)
        },
        is_got(r, got_in(held_view(items@), path@, known@)),
{
    if items.len() > 1 {
        return Err(QueryError::Several);
    }
    if is_empty(path) {
        return Ok(no_items());
    }
    let program = match cache.compile_path(path) {
        Ok(program) => program,
        Err(error) => {
            return Err(QueryError::Path(error));
        },
    };
    if items.len() == 0 {
        return Ok(no_items());
    }
    assert(held_view(items@)[0] == items@[0]@);
    match query_held(&items[0], &program, known) {
        Ok(found) => Ok(found),
        Err(error) => Err(QueryError::Engine(error)),
    }
}

/// The contents of a list of programs, some of which are left out.
pub open spec fn options_view(programs: Seq<Option<&Program>>) -> Seq<Option<ProgramV>> {
    Seq::new(
        programs.len(),
        |k: int|
            match programs[k] {
                Some(program) => Some(program@),
                None => None,
            },
    )
}

/// The programs of a list that are not left out.
pub open spec fn active(programs: Seq<Option<ProgramV>>) -> Seq<ProgramV>
    decreases programs.len(),
{
    if programs.len() == 0 {
        Seq::empty()
    } else {
        let head = active(programs.drop_last());
        match programs.last() {
            Some(program) => head.push(program),
            None => head,
        }
    }
}

/// One list of entries for each program: the next of `lists` for one that is
/// there, and an empty one for one that is left out.
pub open spec fn spread(programs: Seq<Option<ProgramV>>, lists: Seq<Seq<ItemV>>) -> Seq<Seq<ItemV>>
    decreases programs.len(),
{
    if programs.len() == 0 {
        Seq::empty()
    } else {
        let head = programs.drop_last();
        spread(head, lists).push(
            match programs.last() {
                Some(_) => lists[active(head).len() as int],
                None => Seq::empty(),
            },
        )
    }
}

/// What programs select in a document in one pass.
pub open spec fn got_many(
    xml: Seq<u8>,
    programs: Seq<Option<ProgramV>>,
    borrowable: bool,
    known: ReadingsV,
) -> Result<Seq<Seq<ItemV>>, ErrorV> {
    match many_selected(active(programs), xml, borrowable, known) {
        Ok(lists) => Ok(spread(programs, lists)),
        Err(error) => Err(error),
    }
}

/// What programs select in one pass in what a result holds.
pub open spec fn got_many_in(
    items: Seq<HeldV>,
    programs: Seq<Option<ProgramV>>,
    known: ReadingsV,
) -> Result<Seq<Seq<ItemV>>, QueryErrorV> {
    if items.len() > 1 {
        Err(QueryErrorV::Several)
    } else if items.len() == 0 || items[0] is Scalar {
        Ok(Seq::new(programs.len(), |k: int| Seq::empty()))
    } else {
        let lists = match items[0] {
            HeldV::Document(bytes) => many_selected(active(programs), bytes, false, known),
            _ => many_selected_within(active(programs), items[0].bytes(), known),
        };
        match lists {
            Ok(lists) => Ok(spread(programs, lists)),
            Err(error) => Err(QueryErrorV::Engine(error)),
        }
    }
}

/// The programs of a list that are not left out.
fn active_programs<'a>(programs: &[Option<&'a Program>]) -> (r: Vec<&'a Program>)
    ensures
        programs_view(r@) == active(options_view(programs@)),
{
    let ghost all = options_view(programs@);
    let mut r: Vec<&'a Program> = Vec::new();
    assert(programs_view(r@) =~= active(all.take(0)));
    for k in 0..programs.len()
        invariant
            all == options_view(programs@),
            programs_view(r@) == active(all.take(k as int)),
    {
        let ghost before = r@;
        assert(all.take(k + 1).drop_last() =~= all.take(k as int));
        assert(all.take(k + 1).last() == all[k as int]);
        if let Some(program) = programs[k] {
            r.push(program);
            assert(programs_view(r@) =~= programs_view(before).push(program@));
        }
    }
    assert(all.take(programs@.len() as int) =~= all);
    r
}

/// Takes one list of entries for each program that is there.
fn spread_lists(programs: &[Option<&Program>], lists: Vec<Vec<Item>>) -> (r: Vec<Vec<Item>>)
    requires
        lists@.len() == active(options_view(programs@)).len(),
    ensures
        lists_view(r@) == spread(options_view(programs@), lists_view(lists@)),
{
    let ghost all = options_view(programs@);
    let ghost view = lists_view(lists@);
    let mut lists = lists;
    let ghost lists0 = lists@;
    let mut r: Vec<Vec<Item>> = Vec::new();
    let mut used: usize = 0;
    let total = lists.len();
    assert(lists_view(r@) =~= spread(all.take(0), view));
    proof {
        lemma_active_len(all, 0, all.len() as int);
        assert(all.take(all.len() as int) =~= all);
    }
    for k in 0..programs.len()
        invariant
            all == options_view(programs@),
            view == lists_view(lists0),
            lists@.len() == lists0.len(),
            total == lists@.len(),
            lists0.len() == active(all).len(),
            used == active(all.take(k as int)).len(),
            forall|j: int| used <= j < lists@.len() ==> lists@[j] == lists0[j],
            lists_view(r@) == spread(all.take(k as int), view),
    {
        let ghost before = r@;
        proof {
            assert(all.take(k + 1).drop_last() =~= all.take(k as int));
            assert(all.take(k + 1).last() == all[k as int]);
            lemma_active_len(all, k + 1, all.len() as int);
            assert(all.take(all.len() as int) =~= all);
        }
        if programs[k].is_some() {
            let mut items: Vec<Item> = Vec::new();
            std::mem::swap(&mut items, &mut lists[used]);
            assert(items_view(items@) == view[used as int]);
            r.push(items);
            assert(lists_view(r@) =~= lists_view(before).push(items_view(items@)));
            used = used + 1;
        } else {
            let items = no_items();
            r.push(items);
            assert(lists_view(r@) =~= lists_view(before).push(items_view(items@)));
        }
    }
    assert(all.take(programs@.len() as int) =~= all);
    r
}

/// More programs leave no fewer that are there.
proof fn lemma_active_len(programs: Seq<Option<ProgramV>>, n: int, m: int)
    requires
        0 <= n <= m <= programs.len(),
    ensures
        active(programs.take(n)).len() <= active(programs.take(m)).len(),
    decreases m - n,
{
    if n < m {
        lemma_active_len(programs, n, m - 1);
        assert(programs.take(m).drop_last() =~= programs.take(m - 1));
    }
}

/// Evaluates programs in one pass over a document. With `borrowable`, elements
/// are given by their place in the document.
pub fn get_many(
    xml: &[u8],
    programs: &[Option<&Program>],
    borrowable: bool,
    known: &Readings,
) -> (r: Result<Vec<Vec<Item>>, EngineError>)
    ensures
        is_many_outcome(r, got_many(xml@, options_view(programs@), borrowable, known@)),
{
    let there = active_programs(programs);
    match run_many_with_readings(there.as_slice(), xml, borrowable, known) {
        Ok(lists) => {
            proof {
                lemma_lists_len(active(options_view(programs@)), xml@, borrowable, known@);
            }
            Ok(spread_lists(programs, lists))
        },
        Err(error) => Err(error),
    }
}

/// Evaluates programs in one pass against what a result holds.
pub fn get_many_in(items: &[Held], programs: &[Option<&Program>], known: &Readings) -> (r: Result<
    Vec<Vec<Item>>,
    QueryError,
>)
    ensures
        match r {
            Ok(lists) => got_many_in(held_view(items@), options_view(programs@), known@) == Ok::<
                Seq<Seq<ItemV>>,
                QueryErrorV,
            >(lists_view(lists@)),
            Err(error) => got_many_in(held_view(items@), options_view(programs@), known@) == Err::<
                Seq<Seq<ItemV>>,
                QueryErrorV,
            >(error@),
        },
{
    if items.len() > 1 {
        return Err(QueryError::Several);
    }
    if items.len() == 0 {
        return Ok(empty_lists(programs.len()));
    }
    assert(held_view(items@)[0] == items@[0]@);
    let there = active_programs(programs);
    let ghost ps = active(options_view(programs@));
    let found = match &items[0] {
        Held::Document(bytes) => {
            proof {
                lemma_lists_len(ps, bytes@, false, known@);
            }
            run_many_with_readings(there.as_slice(), bytes, false, known)
        },
        Held::Fragment(bytes) => {
            proof {
                lemma_lists_len_within(ps, bytes@, known@);
            }
            run_many_within_with_readings(there.as_slice(), bytes, known)
        },
        Held::Scalar(_) => {
            return Ok(empty_lists(programs.len()));
        },
    };
    match found {
        Ok(lists) => Ok(spread_lists(programs, lists)),
        Err(error) => Err(QueryError::Engine(error)),
    }
}

/// Empty lists of entries.
fn empty_lists(n: usize) -> (r: Vec<Vec<Item>>)
    ensures
        lists_view(r@) == Seq::new(n as nat, |k: int| Seq::<ItemV>::empty()),
{
    let mut r: Vec<Vec<Item>> = Vec::new();
    for k in 0..n
        invariant
            r@.len() == k,
            forall|j: int| 0 <= j < k ==> items_view((#[trigger] r@[j])@) == Seq::<ItemV>::empty(),
    {
        r.push(no_items());
    }
    assert(lists_view(r@) =~= Seq::new(n as nat, |k: int| Seq::<ItemV>::empty()));
    r
}

proof fn lemma_each_len(programs: Seq<ProgramV>, outs: Seq<SinkV>, known: ReadingsV, n: nat)
    ensures
        each_modified(programs, outs, known, n) matches Ok(lists) ==> lists.len() == n,
    decreases n,
{
    if n > 0 {
        lemma_each_len(programs, outs, known, (n - 1) as nat);
    }
}

/// There is one list of entries for each program.
proof fn lemma_lists_len(
    programs: Seq<ProgramV>,
    xml: Seq<u8>,
    borrowable: bool,
    known: ReadingsV,
)
    ensures
        many_selected(programs, xml, borrowable, known) matches Ok(lists) ==> lists.len()
            == programs.len(),
{
    assert forall|outs: Seq<SinkV>| #[trigger]
        each_modified(programs, outs, known, programs.len()) is Ok implies each_modified(
        programs,
        outs,
        known,
        programs.len(),
    )->Ok_0.len() == programs.len() by {
        lemma_each_len(programs, outs, known, programs.len());
    }
}

proof fn lemma_lists_len_within(programs: Seq<ProgramV>, bytes: Seq<u8>, known: ReadingsV)
    ensures
        many_selected_within(programs, bytes, known) matches Ok(lists) ==> lists.len()
            == programs.len(),
{
    assert forall|outs: Seq<SinkV>| #[trigger]
        each_modified(programs, outs, known, programs.len()) is Ok implies each_modified(
        programs,
        outs,
        known,
        programs.len(),
    )->Ok_0.len() == programs.len() by {
        lemma_each_len(programs, outs, known, programs.len());
    }
}

} // verus!
