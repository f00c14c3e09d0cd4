//! Structure profiler: answers "what is the record element of this file?"
//!
//! One streaming pass counts every distinct element *path* (memory bounded
//! by the schema, not the file) and applies a heuristic to suggest a
//! `--record` selector: the path that repeats most under a parent that does
//! not, i.e. the row of the table, the page of the wiki, the entry of the
//! feed.

use vstd::prelude::*;
use vstd::slice::slice_subrange;

use crate::markup;
use crate::markup::{EventView, Failure, State};
use crate::stream;
use crate::text;
use crate::text::{chars_of, join3, same, same_chars};
use crate::xml;
use crate::xml::{Event, ParseError, Parser, ParserOptions};

verus! {

/// Occurrences of one distinct element path.
#[verifier::ext_equal]
pub struct Tally {
    pub path: Seq<char>,
    pub count: int,
    pub with_attrs: int,
}

/// The profiler between two events.
#[verifier::ext_equal]
pub struct Survey {
    /// Paths of the open elements, outermost first.
    pub open: Seq<Seq<char>>,
    /// Distinct paths in first-appearance order.
    pub tallies: Seq<Tally>,
    pub seen: int,
    /// The limit ended the scan.
    pub truncated: bool,
    /// Nothing is left to do.
    pub done: bool,
}

/// The profiler before the first event.
pub open spec fn blank() -> Survey {
    Survey { open: seq![], tallies: seq![], seen: 0, truncated: false, done: false }
}

/// The path of a child called `name`.
pub open spec fn extended(path: Seq<char>, name: Seq<char>) -> Seq<char> {
    if path.len() == 0 {
        name
    } else {
        path + seq!['/'] + name
    }
}

/// The slash-joined path of an element and those around it, outermost first.
pub open spec fn slashed(names: Seq<Seq<char>>) -> Seq<char>
    decreases names.len(),
{
    if names.len() == 0 {
        seq![]
    } else {
        extended(slashed(names.drop_last()), names.last())
    }
}

/// True of the tally of `path`.
pub open spec fn of_path(path: Seq<char>) -> spec_fn(Tally) -> bool {
    |t: Tally| t.path == path
}

/// The tallies with one more occurrence of `path`.
pub open spec fn tallied(tallies: Seq<Tally>, path: Seq<char>, has_attrs: bool) -> Seq<Tally> {
    let extra: int = if has_attrs {
        1
    } else {
        0
    };
    match text::first_where(tallies, of_path(path)) {
        Some(i) => tallies.update(
            i,
            Tally {
                path: tallies[i].path,
                count: tallies[i].count + 1,
                with_attrs: tallies[i].with_attrs + extra,
            },
        ),
        None => tallies.push(Tally { path, count: 1, with_attrs: extra }),
    }
}

/// The profiler after one event.
pub open spec fn surveyed(limit: Option<int>, s: Survey, event: EventView) -> Survey {
    match event {
        EventView::Start { name, attributes } => {
            let outer = if s.open.len() == 0 {
                seq![]
            } else {
                s.open.last()
            };
            let path = extended(outer, name);
            let full = limit matches Some(n) && s.seen + 1 >= n;
            Survey {
                open: s.open.push(path),
                tallies: tallied(s.tallies, path, attributes.len() > 0),
                seen: s.seen + 1,
                truncated: s.truncated || full,
                done: s.done || full,
            }
        },
        EventView::End { .. } => Survey { open: s.open.drop_last(), ..s },
        EventView::Eof => Survey { done: true, ..s },
        _ => s,
    }
}

/// What a scan comes to: the profile and the number of bytes consumed, or the
/// failure that ended it; `None` when more input is needed to go on.
pub open spec fn scanned(limit: Option<int>, st: State, s: Survey) -> Option<
    Result<(Survey, int), Failure>,
>
    decreases stream::work(st),
{
    if s.done {
        Some(Ok((s, st.offset)))
    } else {
        match markup::next(st) {
            None => None,
            Some((Err(failure), _)) => Some(Err(failure)),
            Some((Ok(event), after)) => {
                let t = surveyed(limit, s, event);
                if t.done {
                    Some(Ok((t, after.offset)))
                } else {
                    proof {
                        stream::lemma_work(st);
                    }
                    scanned(limit, after, t)
                }
            },
        }
    }
}

/// The next thing that the profiler has to say.
pub enum Word {
    NeedInput,
    Done,
    Failed(Failure),
}

/// The next thing that the profiler has to say, and where it stands then.
pub open spec fn pulled(limit: Option<int>, st: State, s: Survey) -> (Word, State, Survey)
    decreases stream::work(st),
{
    if s.done {
        (Word::Done, st, s)
    } else {
        match markup::next(st) {
            None => (Word::NeedInput, st, s),
            Some((Err(failure), after)) => (Word::Failed(failure), after, s),
            Some((Ok(event), after)) => {
                let t = surveyed(limit, s, event);
                if t.done {
                    (Word::Done, after, t)
                } else {
                    proof {
                        stream::lemma_work(st);
                    }
                    pulled(limit, after, t)
                }
            },
        }
    }
}

/// What is said is what the scan comes to.
proof fn lemma_pulled(limit: Option<int>, st: State, s: Survey)
    ensures
        ({
            let (word, after, t) = pulled(limit, st, s);
            &&& scanned(limit, st, s) == (match word {
                Word::NeedInput => None,
                Word::Done => Some(Ok((t, after.offset))),
                Word::Failed(failure) => Some(Err(failure)),
            })
            &&& word is NeedInput ==> markup::next(after) is None
            &&& after.closed == st.closed
            &&& after.offset + after.input.len() == st.offset + st.input.len()
        }),
    decreases stream::work(st),
{
    if !s.done {
        stream::lemma_work(st);
        stream::law_reply_effects(st);
        if let Some((Ok(event), after)) = markup::next(st) {
            let t = surveyed(limit, s, event);
            if !t.done {
                lemma_pulled(limit, after, t);
            }
        }
    }
}

/// Sum of all counts.
pub open spec fn total(tallies: Seq<Tally>) -> int
    decreases tallies.len(),
{
    if tallies.len() == 0 {
        0
    } else {
        total(tallies.drop_last()) + tallies.last().count
    }
}

/// No path is counted twice, each tally counts something, and together they
/// count every element.
pub open spec fn sound(s: Survey) -> bool {
    &&& forall|i: int, j: int|
        0 <= i < j < s.tallies.len() ==> (#[trigger] s.tallies[i]).path != (
        #[trigger] s.tallies[j]).path
    &&& forall|i: int|
        0 <= i < s.tallies.len() ==> 1 <= (#[trigger] s.tallies[i]).count <= s.seen && 0
            <= s.tallies[i].with_attrs <= s.tallies[i].count
    &&& total(s.tallies) == s.seen
}

/// The open paths are those of the open elements, and no element was counted
/// that was not read.
pub open spec fn coherent(st: State, s: Survey) -> bool {
    &&& s.open.len() == st.stack.len()
    &&& forall|i: int|
        0 <= i < s.open.len() ==> #[trigger] s.open[i] == slashed(st.stack.take(i + 1))
    &&& 0 <= s.seen <= st.offset
}

/// Adding to one tally adds to the total.
proof fn lemma_total_update(tallies: Seq<Tally>, i: int, t: Tally)
    requires
        0 <= i < tallies.len(),
    ensures
        total(tallies.update(i, t)) == total(tallies) - tallies[i].count + t.count,
    decreases tallies.len(),
{
    let after = tallies.update(i, t);
    if i == tallies.len() - 1 {
        assert(after.drop_last() =~= tallies.drop_last());
    } else {
        lemma_total_update(tallies.drop_last(), i, t);
        assert(after.drop_last() =~= tallies.drop_last().update(i, t));
    }
}

/// Every event keeps the profile sound.
proof fn lemma_sound(limit: Option<int>, s: Survey, event: EventView)
    requires
        sound(s),
    ensures
        sound(surveyed(limit, s, event)),
{
    if let EventView::Start { name, attributes } = event {
        let outer = if s.open.len() == 0 {
            seq![]
        } else {
            s.open.last()
        };
        let path = extended(outer, name);
        let after = tallied(s.tallies, path, attributes.len() > 0);
        text::lemma_first_where_found(s.tallies, of_path(path));
        match text::first_where(s.tallies, of_path(path)) {
            Some(i) => {
                lemma_total_update(s.tallies, i, after[i]);
            },
            None => {
                assert(after.drop_last() =~= s.tallies);
                assert forall|i: int| 0 <= i < s.tallies.len() implies (#[trigger] s.tallies[i]).path
                    != path by {
                    assert(!of_path(path)(s.tallies[i]));
                }
            },
        }
        lemma_total_positive(s.tallies);
    }
}

proof fn lemma_total_positive(tallies: Seq<Tally>)
    requires
        forall|i: int| 0 <= i < tallies.len() ==> 1 <= (#[trigger] tallies[i]).count,
    ensures
        total(tallies) >= 0,
    decreases tallies.len(),
{
    if tallies.len() > 0 {
        let init = tallies.drop_last();
        assert forall|i: int| 0 <= i < init.len() implies 1 <= (#[trigger] init[i]).count by {
            assert(init[i] == tallies[i]);
        }
        lemma_total_positive(init);
        assert(1 <= tallies[tallies.len() - 1].count);
    }
}

/// Every event keeps the profiler coherent with the parser.
proof fn lemma_coherent(limit: Option<int>, st: State, s: Survey)
    requires
        st.wf(),
        coherent(st, s),
    ensures
        markup::next(st) matches Some((Ok(event), after)) ==> {
            &&& after.wf()
            &&& coherent(after, surveyed(limit, s, event))
            &&& event is Start ==> s.seen < after.offset
            &&& event is End ==> s.open.len() > 0
        },
{
    stream::law_reply_effects(st);
    stream::lemma_work(st);
    if let Some((Ok(event), after)) = markup::next(st) {
        let t = surveyed(limit, s, event);
        match event {
            EventView::Start { name, attributes } => {
                let n = st.stack.len() as int;
                assert(after.stack.take(n + 1) =~= after.stack);
                assert(after.stack.drop_last() =~= st.stack);
                assert(st.stack.take(n) =~= st.stack);
                assert(after.stack.last() == name);
                assert(slashed(after.stack) == extended(slashed(st.stack), name));
                if n > 0 {
                    assert(s.open[n - 1] == slashed(st.stack.take(n - 1 + 1)));
                }
                assert(t.open[n] == slashed(after.stack));
                assert forall|i: int| 0 <= i < t.open.len() implies #[trigger] t.open[i] == slashed(
                    after.stack.take(i + 1),
                ) by {
                    if i < n {
                        assert(after.stack.take(i + 1) =~= st.stack.take(i + 1));
                        assert(t.open[i] == s.open[i]);
                    }
                }
            },
            EventView::End { name } => {
                assert forall|i: int| 0 <= i < t.open.len() implies #[trigger] t.open[i] == slashed(
                    after.stack.take(i + 1),
                ) by {
                    assert(after.stack.take(i + 1) =~= st.stack.take(i + 1));
                    assert(t.open[i] == s.open[i]);
                }
            },
            _ => {},
        }
    }
}

/// Number of slashes in a path: how deep it lies.
pub open spec fn slashes(path: Seq<char>) -> int
    decreases path.len(),
{
    if path.len() == 0 {
        0
    } else {
        slashes(path.drop_last()) + if path.last() == '/' {
            1int
        } else {
            0int
        }
    }
}

/// How often `path` occurs.
pub open spec fn count_of(tallies: Seq<Tally>, path: Seq<char>) -> int {
    match text::first_where(tallies, of_path(path)) {
        Some(i) => tallies[i].count,
        None => 0,
    }
}

/// How often the parent of an element occurs; the document occurs once.
pub open spec fn parent_count(tallies: Seq<Tally>, path: Seq<char>) -> int {
    match text::last_where(path, text::equal_to('/')) {
        Some(i) => count_of(tallies, path.take(i)),
        None => 1,
    }
}

/// The path occurs at least twice and more often than its parent.
pub open spec fn repeats(tallies: Seq<Tally>, i: int) -> bool {
    &&& 0 <= i < tallies.len()
    &&& tallies[i].count >= 2
    &&& tallies[i].count > parent_count(tallies, tallies[i].path)
}

/// One candidate is preferred to another: the shallower one, of two of the
/// same depth the more frequent one, and of two equals the first.
pub open spec fn preferred(tallies: Seq<Tally>, i: int, j: int) -> bool {
    let (a, b) = (slashes(tallies[i].path), slashes(tallies[j].path));
    a < b || a == b && (tallies[i].count > tallies[j].count || tallies[i].count == tallies[j].count
        && i <= j)
}

/// The candidate that is preferred to all others.
pub open spec fn is_best(tallies: Seq<Tally>, i: int) -> bool {
    repeats(tallies, i) && forall|j: int| #[trigger]
        repeats(tallies, j) ==> preferred(tallies, i, j)
}

/// The path to suggest.
pub open spec fn suggestion(tallies: Seq<Tally>) -> Option<Seq<char>> {
    if exists|i: int| is_best(tallies, i) {
        Some(tallies[choose|i: int| is_best(tallies, i)].path)
    } else {
        None
    }
}

/// Profiler configuration.
#[derive(Debug, Clone, Copy)]
pub struct InspectOptions {
    /// Stop after this many start elements: enough to profile a
    /// multi-gigabyte file from its first slice.
    pub limit: Option<u64>,
    pub parser: ParserOptions,
}

impl InspectOptions {
    /// The limit as a number.
    pub open spec fn bound(self) -> Option<int> {
        match self.limit {
            Some(n) => Some(n as int),
            None => None,
        }
    }
}

impl Default for InspectOptions {
    fn default() -> (r: Self)
        ensures
            r.limit is None,
            !r.parser.lenient_entities,
    {
        InspectOptions { limit: None, parser: ParserOptions { lenient_entities: false } }
    }
}

/// Occurrence counts for one distinct element path.
#[derive(Debug, Clone, PartialEq)]
pub struct PathCount {
    /// Slash-joined element path from the root, e.g. `mediawiki/page/title`.
    pub path: String,
    pub count: u64,
    /// Element occurrences (of this path) that carried attributes.
    pub with_attrs: u64,
}

impl View for PathCount {
    type V = Tally;

    open spec fn view(&self) -> Tally {
        Tally { path: self.path@, count: self.count as int, with_attrs: self.with_attrs as int }
    }
}

/// The tallies of a list of counts.
pub open spec fn tallies(paths: Seq<PathCount>) -> Seq<Tally> {
    paths.map_values(|pc: PathCount| pc@)
}

/// The full profile of a document.
#[derive(Debug, Clone, PartialEq)]
pub struct Report {
    /// Distinct paths in first-appearance (document) order.
    pub paths: Vec<PathCount>,
    pub elements_seen: u64,
    pub bytes_read: u64,
    /// True when `limit` stopped the scan before EOF.
    pub truncated: bool,
    /// Suggested `--record` selector, if the heuristic found a repeating
    /// record shape.
    pub suggestion: Option<String>,
}

impl Report {
    /// The report says what a profile holds.
    pub open spec fn tells(self, s: Survey, bytes_read: int) -> bool {
        &&& tallies(self.paths@) == s.tallies
        &&& self.elements_seen == s.seen
        &&& self.bytes_read == bytes_read
        &&& self.truncated == s.truncated
        &&& text::opt_view(self.suggestion) == suggestion(s.tallies)
    }
}

/// One answer of [`Inspector::pull`].
#[derive(Debug, Clone, PartialEq)]
pub enum Pulled {
    /// The bytes fed so far are used up: feed more, or close.
    NeedInput,
    /// The input or the limit is used up.
    Done,
    /// The XML is malformed.
    Failed(ParseError),
}

impl View for Pulled {
    type V = Word;

    open spec fn view(&self) -> Word {
        match *self {
            Pulled::NeedInput => Word::NeedInput,
            Pulled::Done => Word::Done,
            Pulled::Failed(e) => Word::Failed(e@),
        }
    }
}

/// The profiler over an input that is fed to it chunk by chunk.
pub struct Inspector {
    opts: InspectOptions,
    parser: Parser,
    open: Vec<String>,
    paths: Vec<PathCount>,
    elements_seen: u64,
    truncated: bool,
    done: bool,
}

impl Inspector {
    /// The configuration.
    pub closed spec fn limit(&self) -> Option<int> {
        self.opts.bound()
    }

    /// The state of the parser.
    pub closed spec fn state(&self) -> State {
        self.parser@
    }

    /// Where the profiler stands.
    pub closed spec fn survey(&self) -> Survey {
        Survey {
            open: text::views(self.open@),
            tallies: tallies(self.paths@),
            seen: self.elements_seen as int,
            truncated: self.truncated,
            done: self.done,
        }
    }

    /// Number of input bytes in memory, consumed ones included.
    pub closed spec fn held(&self) -> nat {
        self.parser.held()
    }

    /// The profiler's own consistency; every constructor establishes it and
    /// every method keeps it.
    pub closed spec fn wf(&self) -> bool {
        &&& self.parser.wf()
        &&& coherent(self.state(), self.survey())
        &&& sound(self.survey())
    }

    /// A profiler that has read nothing.
    pub fn new(opts: &InspectOptions) -> (r: Self)
        ensures
            r.wf(),
            r.limit() == opts.bound(),
            r.state() == xml::fresh(seq![], false, opts.parser.lenient_entities),
            r.survey() == blank(),
            r.held() == 0,
    {
        let r = Inspector {
            opts: *opts,
            parser: Parser::streaming(opts.parser),
            open: Vec::new(),
            paths: Vec::new(),
            elements_seen: 0,
            truncated: false,
            done: false,
        };
        assert(r.survey().open =~= seq![]);
        assert(r.survey().tallies =~= seq![]);
        r
    }

    /// Appends `chunk` to the input.
    pub fn feed(&mut self, chunk: &[u8])
        requires
            old(self).wf(),
            !old(self).state().closed,
            old(self).state().offset + old(self).state().input.len() + chunk@.len() < u64::MAX,
        ensures
            final(self).wf(),
            final(self).limit() == old(self).limit(),
            final(self).state() == old(self).state().with_more(chunk@),
            final(self).survey() == old(self).survey(),
            final(self).held() == old(self).state().input.len() + chunk@.len(),
    {
        self.parser.feed(chunk);
    }

    /// Declares the input complete.
    pub fn close(&mut self)
        requires
            old(self).wf(),
        ensures
            final(self).wf(),
            final(self).limit() == old(self).limit(),
            final(self).state() == (State { closed: true, ..old(self).state() }),
            final(self).survey() == old(self).survey(),
            final(self).held() <= old(self).held(),
    {
        self.parser.close();
    }

    /// The parser, for what it says about its input.
    pub fn parser(&self) -> (r: &Parser)
        requires
            self.wf(),
        ensures
            r.wf(),
            r@ == self.state(),
            r.held() == self.held(),
    {
        &self.parser
    }

    /// Counts one occurrence of `path`.
    fn count(&mut self, path: &str, has_attrs: bool)
        requires
            sound(old(self).survey()),
            old(self).elements_seen < u64::MAX,
        ensures
            *final(self) == (Inspector { paths: final(self).paths, ..*old(self) }),
            tallies(final(self).paths@) == tallied(tallies(old(self).paths@), path@, has_attrs),
    {
        let ghost all = tallies(self.paths@);
        let extra: u64 = if has_attrs {
            1
        } else {
            0
        };
        let mut i: usize = 0;
        while i < self.paths.len()
            invariant
                i <= self.paths@.len(),
                *self == *old(self),
                all == tallies(self.paths@),
                sound(self.survey()),
                self.elements_seen < u64::MAX,
                extra == (if has_attrs {
                    1u64
                } else {
                    0u64
                }),
                forall|j: int| 0 <= j < i ==> !of_path(path@)(#[trigger] all[j]),
            decreases self.paths@.len() - i,
        {
            if same(&self.paths[i].path, path) {
                proof {
                    text::lemma_first_where(all, of_path(path@), i as int);
                    assert(self.survey().tallies[i as int].count <= self.survey().seen);
                }
                self.paths[i].count = self.paths[i].count + 1;
                self.paths[i].with_attrs = self.paths[i].with_attrs + extra;
                assert(tallies(self.paths@) =~= tallied(all, path@, has_attrs));
                return;
            }
            i = i + 1;
        }
        proof {
            text::lemma_first_where_none(all, of_path(path@));
        }
        self.paths.push(PathCount { path: path.to_owned(), count: 1, with_attrs: extra });
        assert(tallies(self.paths@) =~= tallied(all, path@, has_attrs));
    }

    /// Takes one event in.
    fn handle(&mut self, event: Event)
        requires
            sound(old(self).survey()),
            event is Start ==> old(self).elements_seen < u64::MAX,
            event is End ==> old(self).open@.len() > 0,
        ensures
            final(self).limit() == old(self).limit(),
            final(self).parser == old(self).parser,
            final(self).survey() == surveyed(old(self).limit(), old(self).survey(), event@),
    {
        let ghost before = self.survey();
        match event {
            Event::Start { name, attributes } => {
                let depth = self.open.len();
                let path = if depth == 0 || self.open[depth - 1].as_str().is_empty() {
                    name
                } else {
                    join3(&self.open[depth - 1], "/", &name)
                };
                proof {
                    reveal_strlit("/");
                    assert("/"@ =~= seq!['/']);
                }
                self.count(&path, attributes.len() > 0);
                self.open.push(path);
                self.elements_seen = self.elements_seen + 1;
                if let Some(n) = self.opts.limit {
                    if self.elements_seen >= n {
                        self.truncated = true;
                        self.done = true;
                    }
                }
                assert(self.survey().open =~= before.open.push(path@));
            },
            Event::End { .. } => {
                let popped = self.open.pop();
                assert(self.survey().open =~= before.open.drop_last());
            },
            Event::Eof => {
                self.done = true;
            },
            _ => {},
        }
    }

    /// Reads on, as far as the input goes.
    pub fn pull(&mut self) -> (r: Pulled)
        requires
            old(self).wf(),
        ensures
            final(self).wf(),
            final(self).limit() == old(self).limit(),
            pulled(old(self).limit(), old(self).state(), old(self).survey()) == (
                r@,
                final(self).state(),
                final(self).survey(),
            ),
            final(self).state().closed == old(self).state().closed,
            final(self).state().offset + final(self).state().input.len() == old(
                self,
            ).state().offset + old(self).state().input.len(),
            final(self).held() <= old(self).held(),
    {
        proof {
            lemma_pulled(self.limit(), self.state(), self.survey());
        }
        self.read_on()
    }

    /// Takes events in until there is something to say.
    #[verifier::spinoff_prover]
    fn read_on(&mut self) -> (r: Pulled)
        requires
            old(self).wf(),
        ensures
            final(self).wf(),
            final(self).limit() == old(self).limit(),
            pulled(old(self).limit(), old(self).state(), old(self).survey()) == (
                r@,
                final(self).state(),
                final(self).survey(),
            ),
            final(self).held() <= old(self).held(),
    {
        while !self.done
            invariant
                self.wf(),
                self.held() <= old(self).held(),
                self.limit() == old(self).limit(),
                pulled(self.limit(), self.state(), self.survey()) == pulled(
                    old(self).limit(),
                    old(self).state(),
                    old(self).survey(),
                ),
            decreases
                stream::work(self.state()),
                (if self.done {
                    0int
                } else {
                    1int
                }),
        {
            if let Some(answer) = self.advance() {
                return answer;
            }
        }
        Pulled::Done
    }

    /// Takes one event in, if there is one. Returns what there is to say.
    fn advance(&mut self) -> (r: Option<Pulled>)
        requires
            old(self).wf(),
            !old(self).done,
        ensures
            final(self).wf(),
            final(self).held() <= old(self).held(),
            final(self).limit() == old(self).limit(),
            match r {
                Some(answer) => pulled(old(self).limit(), old(self).state(), old(self).survey())
                    == (answer@, final(self).state(), final(self).survey()),
                None => pulled(old(self).limit(), old(self).state(), old(self).survey()) == pulled(
                    final(self).limit(),
                    final(self).state(),
                    final(self).survey(),
                ) && (final(self).done && stream::work(final(self).state()) <= stream::work(
                    old(self).state(),
                ) || stream::work(final(self).state()) < stream::work(old(self).state())),
            },
    {
        let ghost st = self.state();
        let ghost s = self.survey();
        proof {
            self.parser.lemma_wf();
            lemma_coherent(self.limit(), st, s);
            stream::lemma_work(st);
            stream::law_reply_effects(st);
        }
        match self.parser.poll_event() {
            None => Some(Pulled::NeedInput),
            Some(Err(e)) => Some(Pulled::Failed(e)),
            Some(Ok(event)) => {
                proof {
                    self.parser.lemma_wf();
                    lemma_sound(self.limit(), s, event@);
                }
                self.handle(event);
                None
            },
        }
    }

    /// The profile as it stands.
    pub fn report(self) -> (r: Report)
        requires
            self.wf(),
        ensures
            r.tells(self.survey(), self.state().offset),
    {
        let suggestion = suggest(&self.paths);
        Report {
            bytes_read: self.parser.bytes_read(),
            paths: self.paths,
            elements_seen: self.elements_seen,
            truncated: self.truncated,
            suggestion,
        }
    }
}

/// Profile a whole document.
pub fn inspect(input: &[u8], opts: &InspectOptions) -> (r: Result<Report, ParseError>)
    requires
        input@.len() < u64::MAX,
    ensures
        match scanned(
            opts.bound(),
            xml::fresh(input@, true, opts.parser.lenient_entities),
            blank(),
        ) {
            Some(Ok((survey, bytes_read))) => r matches Ok(report) && report.tells(
                survey,
                bytes_read,
            ),
            Some(Err(failure)) => r matches Err(e) && e@ == failure,
            None => false,
        },
{
    let mut inspector = Inspector::new(opts);
    inspector.feed(input);
    inspector.close();
    proof {
        assert(inspector.state() =~= xml::fresh(input@, true, opts.parser.lenient_entities));
        lemma_pulled(inspector.limit(), inspector.state(), inspector.survey());
    }
    match inspector.pull() {
        Pulled::Done => Ok(inspector.report()),
        Pulled::Failed(e) => Err(e),
        Pulled::NeedInput => {
            // The input is complete, so there is always an answer.
            proof {
                markup::law_closed_input_decides(inspector.state());
            }
            Ok(vstd::pervasive::unreached())
        },
    }
}

/// How often the path occurs.
fn find_count(paths: &[PathCount], path: &[char]) -> (r: u64)
    ensures
        r == count_of(tallies(paths@), path@),
{
    let ghost all = tallies(paths@);
    let mut i: usize = 0;
    while i < paths.len()
        invariant
            i <= paths@.len(),
            all == tallies(paths@),
            forall|j: int| 0 <= j < i ==> !of_path(path@)(#[trigger] all[j]),
        decreases paths@.len() - i,
    {
        let other = chars_of(&paths[i].path);
        if same_chars(&other, path) {
            proof {
                text::lemma_first_where(all, of_path(path@), i as int);
            }
            return paths[i].count;
        }
        i = i + 1;
    }
    proof {
        text::lemma_first_where_none(all, of_path(path@));
    }
    0
}

/// How often the parent of the element at `path` occurs.
fn find_parent_count(paths: &[PathCount], path: &[char]) -> (r: u64)
    ensures
        r == parent_count(tallies(paths@), path@),
{
    let ghost slash = text::equal_to('/');
    let mut i: usize = path.len();
    while i > 0
        invariant
            i <= path@.len(),
            slash == text::equal_to('/'),
            forall|j: int| i <= j < path@.len() ==> !slash(#[trigger] path@[j]),
        decreases i,
    {
        i = i - 1;
        if path[i] == '/' {
            proof {
                text::lemma_last_where(path@, slash, i as int);
            }
            return find_count(paths, slice_subrange(path, 0, i));
        }
    }
    proof {
        text::lemma_last_where_none(path@, slash);
    }
    1  // document level

}

/// Number of slashes in a path.
fn depth_of(path: &[char]) -> (r: usize)
    ensures
        r == slashes(path@),
{
    let mut n: usize = 0;
    let mut i: usize = 0;
    while i < path.len()
        invariant
            n <= i <= path@.len(),
            n == slashes(path@.take(i as int)),
        decreases path@.len() - i,
    {
        assert(path@.take(i + 1).drop_last() =~= path@.take(i as int));
        if path[i] == '/' {
            n = n + 1;
        }
        i = i + 1;
    }
    assert(path@.take(i as int) =~= path@);
    n
}

/// The best among the first `n` tallies.
spec fn best_among(tallies: Seq<Tally>, n: int, i: int) -> bool {
    &&& i < n
    &&& repeats(tallies, i)
    &&& forall|j: int| #[trigger] repeats(tallies, j) && j < n ==> preferred(tallies, i, j)
}

/// Pick the most likely record element: among paths that occur at least
/// twice and more often than their parent, prefer the *shallowest* (records
/// sit near the root; repeated leaves like `<link>` sit deep inside them),
/// then the highest count, then document order. A singleton is a header,
/// not a record, so it never qualifies.
fn suggest(paths: &[PathCount]) -> (r: Option<String>)
    ensures
        text::opt_view(r) == suggestion(tallies(paths@)),
{
    let ghost all = tallies(paths@);
    let mut best: Option<(usize, usize)> = None;
    let mut i: usize = 0;
    while i < paths.len()
        invariant
            i <= paths@.len(),
            all == tallies(paths@),
            match best {
                Some((b, depth)) => best_among(all, i as int, b as int) && depth == slashes(
                    all[b as int].path,
                ),
                None => forall|j: int| #[trigger] repeats(all, j) ==> j >= i,
            },
        decreases paths@.len() - i,
    {
        let path = chars_of(&paths[i].path);
        let count = paths[i].count;
        let candidate = count >= 2 && count > find_parent_count(paths, &path);
        assert(all[i as int].path == path@ && all[i as int].count == count);
        assert(candidate == repeats(all, i as int));
        if candidate {
            let depth = depth_of(&path);
            let better = match best {
                None => true,
                Some((b, bd)) => depth < bd || (depth == bd && count > paths[b].count),
            };
            if better {
                best = Some((i, depth));
            }
        }
        i = i + 1;
    }
    match best {
        Some((b, _)) => {
            proof {
                assert(is_best(all, b as int));
                law_the_suggestion_is_unique(all, b as int, choose|i: int| is_best(all, i));
            }
            Some(paths[b].path.clone())
        },
        None => None,
    }
}

/// There is one best candidate at most.
pub proof fn law_the_suggestion_is_unique(tallies: Seq<Tally>, i: int, j: int)
    requires
        is_best(tallies, i),
        is_best(tallies, j),
    ensures
        i == j,
{
}

proof fn lemma_best_exists(tallies: Seq<Tally>, n: int)
    requires
        0 <= n <= tallies.len(),
    ensures
        (exists|i: int| #[trigger] repeats(tallies, i) && i < n) ==> exists|i: int|
            best_among(tallies, n, i),
    decreases n,
{
    if n > 0 {
        lemma_best_exists(tallies, n - 1);
        let last = n - 1;
        if exists|i: int| #[trigger] repeats(tallies, i) && i < last {
            let b = choose|i: int| best_among(tallies, last, i);
            if repeats(tallies, last) && !preferred(tallies, b, last) {
                assert(best_among(tallies, n, last));
            } else {
                assert(best_among(tallies, n, b));
            }
        } else if repeats(tallies, last) {
            assert(best_among(tallies, n, last));
        }
    }
}

/// There is a suggestion if and only if some path repeats, and it is a path
/// that repeats: a singleton is never suggested.
pub proof fn law_a_suggestion_repeats(tallies: Seq<Tally>)
    ensures
        suggestion(tallies) is Some <==> exists|i: int| #[trigger] repeats(tallies, i),
        suggestion(tallies) matches Some(path) ==> exists|i: int|
            #![trigger repeats(tallies, i)]
            repeats(tallies, i) && tallies[i].path == path,
{
    lemma_best_exists(tallies, tallies.len() as int);
    if exists|i: int| #[trigger] repeats(tallies, i) {
        let b = choose|i: int| best_among(tallies, tallies.len() as int, i);
        assert(is_best(tallies, b));
    }
    if suggestion(tallies) is Some {
        let b = choose|i: int| is_best(tallies, i);
        assert(repeats(tallies, b));
    }
}

/// Each element counts once, under its own path, and the paths keep the order
/// in which they first appeared.
pub proof fn law_each_element_counts_once(
    tallies: Seq<Tally>,
    path: Seq<char>,
    has_attrs: bool,
    other: Seq<char>,
)
    ensures
        count_of(tallied(tallies, path, has_attrs), other) == count_of(tallies, other) + if other
            == path {
            1int
        } else {
            0int
        },
        tallies.len() <= tallied(tallies, path, has_attrs).len() <= tallies.len() + 1,
        forall|i: int|
            0 <= i < tallies.len() ==> (#[trigger] tallied(tallies, path, has_attrs)[i]).path
                == tallies[i].path,
{
    let after = tallied(tallies, path, has_attrs);
    let p = of_path(path);
    let q = of_path(other);
    text::lemma_first_where_found(tallies, p);
    text::lemma_first_where_found(tallies, q);
    match text::first_where(tallies, q) {
        Some(i) => {
            assert(q(after[i]));
            assert forall|j: int| 0 <= j < i implies !q(#[trigger] after[j]) by {
                assert(!q(tallies[j]));
            }
            text::lemma_first_where(after, q, i);
        },
        None => {
            assert forall|j: int| 0 <= j < tallies.len() implies !q(#[trigger] after[j]) by {
                assert(!q(tallies[j]));
            }
            if other == path {
                assert(text::first_where(tallies, p) is None) by {
                    if let Some(i) = text::first_where(tallies, p) {
                        assert(q(tallies[i]));
                    }
                }
                assert(q(after[tallies.len() as int]));
                text::lemma_first_where(after, q, tallies.len() as int);
            } else {
                text::lemma_first_where_none(after, q);
            }
        },
    }
}

/// How many elements a scan has seen at most when it began with `seen`: as
/// many as the limit says, but one more at least.
pub open spec fn scan_bound(limit: Option<int>, seen: int) -> Option<int> {
    match limit {
        Some(n) => Some(
            if n >= 1 {
                n
            } else {
                seen + 1
            },
        ),
        None => None,
    }
}

proof fn lemma_scanned(limit: Option<int>, st: State, s: Survey)
    requires
        st.wf(),
        coherent(st, s),
        sound(s),
        !s.done,
        !s.truncated,
        limit matches Some(n) ==> 1 <= n ==> s.seen < n,
    ensures
        scanned(limit, st, s) matches Some(Ok((t, bytes_read))) ==> {
            &&& sound(t)
            &&& s.seen <= t.seen <= bytes_read
            &&& st.offset <= bytes_read <= st.offset + st.input.len()
            &&& t.truncated <==> scan_bound(limit, s.seen) == Some(t.seen)
            &&& !t.truncated ==> bytes_read == st.offset + st.input.len()
            &&& scan_bound(limit, s.seen) matches Some(n) ==> t.seen <= n
        },
        st.closed ==> scanned(limit, st, s) is Some,
    decreases stream::work(st),
{
    stream::lemma_work(st);
    stream::law_reply_effects(st);
    lemma_coherent(limit, st, s);
    if st.closed {
        markup::law_closed_input_decides(st);
    }
    if let Some((Ok(event), after)) = markup::next(st) {
        lemma_sound(limit, s, event);
        let t = surveyed(limit, s, event);
        if !t.done {
            lemma_scanned(limit, after, t);
        }
    }
}

/// A profile is sound: no path stands in it twice, each count is at least
/// one, and the counts add up to the number of elements. A scan is truncated
/// exactly when it has seen as many elements as the limit allows; one that is
/// not has read all of the input.
pub proof fn law_profiles_are_sound(limit: Option<int>, input: Seq<u8>, lenient: bool)
    ensures
        match scanned(limit, xml::fresh(input, true, lenient), blank()) {
            Some(Ok((s, bytes_read))) => {
                &&& sound(s)
                &&& s.seen <= bytes_read <= input.len()
                &&& s.truncated <==> scan_bound(limit, 0) == Some(s.seen)
                &&& !s.truncated ==> bytes_read == input.len()
                &&& scan_bound(limit, 0) matches Some(n) ==> s.seen <= n
            },
            Some(Err(_)) => true,
            None => false,
        },
{
    lemma_scanned(limit, xml::fresh(input, true, lenient), blank());
}

/// Where a scan has ended, by its limit or by a failure, nothing behind that
/// point is looked at.
pub proof fn law_later_bytes_change_no_profile(
    limit: Option<int>,
    st: State,
    s: Survey,
    more: Seq<u8>,
    closed: bool,
)
    requires
        !st.closed,
        scanned(limit, st, s) is Some,
    ensures
        scanned(limit, stream::grown(st, more, closed), s) == scanned(limit, st, s),
    decreases stream::work(st),
{
    if !s.done {
        stream::lemma_work(st);
        stream::law_reply_effects(st);
        stream::law_more_input_keeps_a_decided_reply(st, more, closed);
        if let Some((Ok(event), after)) = markup::next(st) {
            let t = surveyed(limit, s, event);
            if !t.done {
                law_later_bytes_change_no_profile(limit, after, t, more, closed);
            }
        }
    }
}

/// What a profiler comes to that is fed `chunks`, each when it asks for
/// input, and then told that the input is complete.
pub open spec fn driven(
    limit: Option<int>,
    st: State,
    s: Survey,
    chunks: Seq<Seq<u8>>,
) -> Option<Result<(Survey, int), Failure>>
    decreases chunks.len(),
{
    match pulled(limit, st, s) {
        (Word::NeedInput, after, t) => if chunks.len() == 0 {
            scanned(limit, State { closed: true, ..after }, t)
        } else {
            driven(limit, after.with_more(chunks[0]), t, chunks.drop_first())
        },
        (Word::Done, after, t) => Some(Ok((t, after.offset))),
        (Word::Failed(failure), after, t) => Some(Err(failure)),
    }
}

proof fn lemma_pulled_grown(limit: Option<int>, st: State, s: Survey, more: Seq<u8>, closed: bool)
    requires
        !st.closed,
    ensures
        ({
            let (word, after, t) = pulled(limit, st, s);
            scanned(limit, stream::grown(st, more, closed), s) == (match word {
                Word::NeedInput => scanned(limit, stream::grown(after, more, closed), t),
                _ => scanned(limit, st, s),
            })
        }),
    decreases stream::work(st),
{
    if !s.done {
        stream::lemma_work(st);
        stream::law_reply_effects(st);
        if markup::next(st) is Some {
            stream::law_more_input_keeps_a_decided_reply(st, more, closed);
        }
        if let Some((Ok(event), after)) = markup::next(st) {
            let t = surveyed(limit, s, event);
            if !t.done {
                lemma_pulled_grown(limit, after, t, more, closed);
            }
        }
    }
}

/// The chunks in which a document arrives make no difference to its profile.
pub proof fn law_chunks_make_no_difference(
    limit: Option<int>,
    st: State,
    s: Survey,
    chunks: Seq<Seq<u8>>,
)
    requires
        !st.closed,
    ensures
        driven(limit, st, s, chunks) == scanned(
            limit,
            stream::grown(st, chunks.flatten(), true),
            s,
        ),
    decreases chunks.len(),
{
    let (word, after, t) = pulled(limit, st, s);
    lemma_pulled(limit, st, s);
    lemma_pulled_grown(limit, st, s, chunks.flatten(), true);
    if word is NeedInput {
        if chunks.len() == 0 {
            assert(chunks.flatten() =~= seq![]);
            assert(after.input + chunks.flatten() =~= after.input);
            assert(stream::grown(after, chunks.flatten(), true) =~= State { closed: true, ..after });
        } else {
            let fed = after.with_more(chunks[0]);
            let rest = chunks.drop_first();
            law_chunks_make_no_difference(limit, fed, t, rest);
            assert(chunks.flatten() == chunks.first() + rest.flatten());
            assert(after.input + chunks.flatten() =~= fed.input + rest.flatten());
            assert(stream::grown(after, chunks.flatten(), true) =~= stream::grown(
                fed,
                rest.flatten(),
                true,
            ));
        }
    }
}

/// True of the mark between the names of a path.
pub open spec fn is_slash() -> spec_fn(char) -> bool {
    |c: char| c == '/'
}

/// The depth of a path is the number of all slashes in it.
pub proof fn law_depth_counts_every_slash(path: Seq<char>)
    ensures
        slashes(path) == path.filter(is_slash()).len(),
    decreases path.len(),
{
    reveal(Seq::filter);
    if path.len() > 0 {
        law_depth_counts_every_slash(path.drop_last());
    }
}

/// Slashes of both parts add up.
proof fn lemma_slashes_add(a: Seq<char>, b: Seq<char>)
    ensures
        slashes(a + b) == slashes(a) + slashes(b),
        slashes(a) >= 0,
    decreases a.len() + b.len(),
{
    if b.len() > 0 {
        lemma_slashes_add(a, b.drop_last());
        assert((a + b).drop_last() =~= a + b.drop_last());
    } else {
        assert(a + b =~= a);
        if a.len() > 0 {
            lemma_slashes_add(a.drop_last(), seq![]);
        }
    }
}

proof fn lemma_no_slashes(s: Seq<char>)
    requires
        !s.contains('/'),
    ensures
        slashes(s) == 0,
    decreases s.len(),
{
    if s.len() > 0 {
        assert(s.contains(s.last()));
        assert forall|i: int| 0 <= i < s.drop_last().len() implies s.drop_last()[i] != '/' by {
            assert(s.contains(s[i]));
        }
        lemma_no_slashes(s.drop_last());
    }
}

/// Depth is nesting: the path of an element inside `n` others has depth `n`,
/// and that of a child is deeper than that of its parent by one.
pub proof fn law_depth_is_nesting(names: Seq<Seq<char>>)
    requires
        names.len() > 0,
        forall|i: int|
            0 <= i < names.len() ==> (#[trigger] names[i]).len() > 0 && !names[i].contains('/'),
    ensures
        slashes(slashed(names)) == names.len() - 1,
        slashed(names).len() > 0,
        names.len() > 1 ==> slashes(slashed(names)) == slashes(slashed(names.drop_last())) + 1,
    decreases names.len(),
{
    let name = names.last();
    assert(names[names.len() - 1] == name);
    lemma_no_slashes(name);
    if names.len() == 1 {
        assert(slashed(names.drop_last()) =~= seq![]);
    } else {
        let outer = names.drop_last();
        assert forall|i: int| 0 <= i < outer.len() implies (#[trigger] outer[i]).len() > 0
            && !outer[i].contains('/') by {
            assert(outer[i] == names[i]);
        }
        law_depth_is_nesting(outer);
        let path = slashed(outer);
        lemma_slashes_add(path, seq!['/']);
        lemma_slashes_add(path + seq!['/'], name);
        assert(slashes(seq!['/']) == 1) by {
            assert(seq!['/'].drop_last() =~= seq![]);
            reveal_with_fuel(slashes, 2);
        }
    }
}

/// `a` is the path of an element around the one at `p`.
pub open spec fn is_ancestor(a: Seq<char>, p: Seq<char>) -> bool {
    exists|i: int| 0 <= i < p.len() && #[trigger] p[i] == '/' && a == p.take(i)
}

/// The path of an element around another is less deep.
proof fn lemma_ancestor(a: Seq<char>, p: Seq<char>)
    requires
        is_ancestor(a, p),
    ensures
        slashes(a) < slashes(p),
{
    let i = choose|i: int| 0 <= i < p.len() && #[trigger] p[i] == '/' && a == p.take(i);
    let rest = p.skip(i);
    assert(p =~= a + rest);
    lemma_slashes_add(a, rest);
    assert(rest =~= seq!['/'] + rest.skip(1));
    lemma_slashes_add(seq!['/'], rest.skip(1));
    lemma_slashes_add(rest.skip(1), seq![]);
    assert(slashes(seq!['/']) == 1) by {
        assert(seq!['/'].drop_last() =~= seq![]);
        reveal_with_fuel(slashes, 2);
    }
}

/// A suggestion holds its records, it is not inside them: no element around
/// the suggested one repeats.
pub proof fn law_no_element_around_the_suggestion_repeats(tallies: Seq<Tally>, j: int)
    requires
        repeats(tallies, j),
        suggestion(tallies) is Some,
    ensures
        !is_ancestor(tallies[j].path, suggestion(tallies)->0),
{
    let b = choose|i: int| is_best(tallies, i);
    assert(preferred(tallies, b, j));
    if is_ancestor(tallies[j].path, tallies[b].path) {
        lemma_ancestor(tallies[j].path, tallies[b].path);
    }
}

/// An element repeats when it is counted at least twice and more often than
/// the element around it; one with nothing around it, when it is counted at
/// least twice.
pub proof fn law_repeating_is_beyond_the_parent(
    tallies: Seq<Tally>,
    i: int,
    outer: Seq<char>,
    name: Seq<char>,
)
    requires
        0 <= i < tallies.len(),
        !name.contains('/'),
        name.len() > 0,
        forall|a: int, b: int|
            0 <= a < b < tallies.len() ==> (#[trigger] tallies[a]).path != (
            #[trigger] tallies[b]).path,
    ensures
        tallies[i].path == name ==> (repeats(tallies, i) <==> tallies[i].count >= 2),
        forall|k: int|
            0 <= k < tallies.len() && outer.len() > 0 && (#[trigger] tallies[k]).path == outer
                && tallies[i].path == outer + seq!['/'] + name ==> (repeats(tallies, i)
                <==> tallies[i].count >= 2 && tallies[i].count > tallies[k].count),
{
    let slash = text::equal_to('/');
    if tallies[i].path == name {
        assert forall|j: int| 0 <= j < name.len() implies !slash(#[trigger] name[j]) by {
            assert(name.contains(name[j]));
        }
        text::lemma_last_where_none(name, slash);
    }
    assert forall|k: int|
        0 <= k < tallies.len() && outer.len() > 0 && (#[trigger] tallies[k]).path == outer
            && tallies[i].path == outer + seq!['/'] + name implies (repeats(tallies, i)
        <==> tallies[i].count >= 2 && tallies[i].count > tallies[k].count) by {
        let path = outer + seq!['/'] + name;
        let n = outer.len() as int;
        assert(path[n] == '/');
        assert forall|j: int| n < j < path.len() implies !slash(#[trigger] path[j]) by {
            assert(path[j] == name[j - n - 1]);
            assert(name.contains(name[j - n - 1]));
        }
        text::lemma_last_where(path, slash, n);
        assert(path.take(n) =~= outer);
        let p = of_path(outer);
        assert forall|j: int| 0 <= j < k implies !p(#[trigger] tallies[j]) by {
            assert(tallies[j].path != tallies[k].path);
        }
        text::lemma_first_where(tallies, p, k);
    }
}

/// Among the elements that repeat, the suggested one is the least deep; of
/// those as deep as it none is counted more often, and none that is counted as
/// often comes first.
pub proof fn law_the_suggestion_is_the_shallowest_and_most_frequent(tallies: Seq<Tally>, j: int)
    requires
        repeats(tallies, j),
    ensures
        exists|b: int|
            #![trigger repeats(tallies, b)]
            {
                let (depth, other) = (
                    tallies[b].path.filter(is_slash()).len(),
                    tallies[j].path.filter(is_slash()).len(),
                );
                &&& repeats(tallies, b)
                &&& suggestion(tallies) == Some(tallies[b].path)
                &&& depth <= other
                &&& depth == other ==> tallies[b].count >= tallies[j].count
                &&& depth == other && tallies[b].count == tallies[j].count ==> b <= j
            },
{
    law_a_suggestion_repeats(tallies);
    let b = choose|i: int| is_best(tallies, i);
    assert(is_best(tallies, b));
    assert(preferred(tallies, b, j));
    law_depth_counts_every_slash(tallies[b].path);
    law_depth_counts_every_slash(tallies[j].path);
    assert(repeats(tallies, b));
}

} // verus!
