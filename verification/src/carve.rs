//! The streaming driver: XML events in, JSONL lines out.
//!
//! Memory profile: one element-path stack (bounded by nesting depth) plus
//! the JSON tree of the *current* record. Everything between records (site
//! metadata, comments, indentation) flows past without being stored.

use vstd::prelude::*;

use crate::json;
use crate::json::{Json, Value};
use crate::markup;
use crate::markup::{EventView, Failure, State, LF};
use crate::record;
use crate::record::{map_name, Draft, MapOptions, RecordBuilder, Rules};
use crate::selector;
use crate::selector::{any_match, Pattern, Selector};
use crate::stream;
use crate::text;
use crate::text::join2;
use crate::xml;
use crate::xml::{Event, ParseError, Parser, ParserOptions};

verus! {

/// The carve configuration, over mathematical values.
#[verifier::ext_equal]
pub struct Plan {
    pub selectors: Seq<Pattern>,
    pub skip: int,
    pub limit: Option<int>,
    pub rules: Rules,
    pub lenient: bool,
}

/// What the driver is doing with the element currently being read.
#[verifier::ext_equal]
pub enum Phase {
    /// Outside any record: watching the path for a selector match.
    Scanning,
    /// Inside a matched record that is skipped; `depth` is the length of the
    /// path of its element.
    Skipping { depth: int },
    /// Inside a matched record.
    Building(Draft),
}

/// The driver between two events.
#[verifier::ext_equal]
pub struct Progress {
    /// Mapped names of the open elements, outermost first.
    pub path: Seq<Seq<char>>,
    pub phase: Phase,
    pub matched: int,
    pub written: int,
    /// Nothing is left to do: the input or the limit is used up.
    pub done: bool,
}

/// The driver before the first event.
pub open spec fn idle() -> Progress {
    Progress { path: seq![], phase: Phase::Scanning, matched: 0, written: 0, done: false }
}

/// The driver after a start tag. A match counts only outside a record, and
/// the first matches are skipped as far as the plan says.
pub open spec fn entered(
    plan: Plan,
    p: Progress,
    name: Seq<char>,
    attributes: Seq<(Seq<char>, Seq<char>)>,
) -> Progress {
    let path = p.path.push(record::mapped_name(name, plan.rules.strip_namespaces));
    match p.phase {
        Phase::Scanning => if selector::any_selects(plan.selectors, path) {
            Progress {
                path,
                phase: if p.matched < plan.skip {
                    Phase::Skipping { depth: path.len() as int }
                } else {
                    Phase::Building(
                        record::started(
                            Draft { open: seq![], rules: plan.rules },
                            name,
                            attributes,
                        ),
                    )
                },
                matched: p.matched + 1,
                ..p
            }
        } else {
            Progress { path, ..p }
        },
        Phase::Skipping { .. } => Progress { path, ..p },
        Phase::Building(draft) => Progress {
            path,
            phase: Phase::Building(record::started(draft, name, attributes)),
            ..p
        },
    }
}

/// The driver after an end tag, and the record that it completes.
pub open spec fn left(plan: Plan, p: Progress) -> (Progress, Option<Json>) {
    let path = p.path.drop_last();
    match p.phase {
        Phase::Scanning => (Progress { path, ..p }, None),
        Phase::Skipping { depth } => (
            Progress {
                path,
                phase: if p.path.len() == depth {
                    Phase::Scanning
                } else {
                    p.phase
                },
                ..p
            },
            None,
        ),
        Phase::Building(draft) => match record::ended(draft) {
            (rest, None) => (Progress { path, phase: Phase::Building(rest), ..p }, None),
            (_, Some(value)) => (
                Progress {
                    path,
                    phase: Phase::Scanning,
                    written: p.written + 1,
                    done: plan.limit matches Some(n) && p.written + 1 >= n,
                    ..p
                },
                Some(value),
            ),
        },
    }
}

/// The driver after one event, and the record that it completes.
pub open spec fn step(plan: Plan, p: Progress, event: EventView) -> (Progress, Option<Json>) {
    match event {
        EventView::Start { name, attributes } => (entered(plan, p, name, attributes), None),
        EventView::End { .. } => left(plan, p),
        EventView::Text(content) => (with_text(p, content, false), None),
        EventView::CData(content) => (with_text(p, content, true), None),
        EventView::Eof => (Progress { done: true, ..p }, None),
        _ => (p, None),
    }
}

/// The driver after character data.
pub open spec fn with_text(p: Progress, content: Seq<char>, cdata: bool) -> Progress {
    match p.phase {
        Phase::Building(draft) => Progress {
            phase: Phase::Building(record::texted(draft, content, cdata)),
            ..p
        },
        _ => p,
    }
}

/// What a run of the driver comes to.
#[verifier::ext_equal]
pub struct Outcome {
    /// The records, in document order.
    pub records: Seq<Json>,
    /// The number of bytes consumed, or the failure that ended the run;
    /// `None` when more input is needed to go on.
    pub stop: Option<Result<int, Failure>>,
    pub progress: Progress,
}

/// The outcome with a record before the others.
pub open spec fn preceded(first: Option<Json>, o: Outcome) -> Outcome {
    match first {
        Some(value) => Outcome { records: seq![value] + o.records, ..o },
        None => o,
    }
}

/// The outcome of the driver from a state of the parser on.
pub open spec fn carved(plan: Plan, st: State, p: Progress) -> Outcome
    decreases stream::work(st),
{
    if p.done {
        Outcome { records: seq![], stop: Some(Ok(st.offset)), progress: p }
    } else {
        match markup::next(st) {
            None => Outcome { records: seq![], stop: None, progress: p },
            Some((Err(failure), _)) => Outcome {
                records: seq![],
                stop: Some(Err(failure)),
                progress: p,
            },
            Some((Ok(event), after)) => {
                let (q, record) = step(plan, p, event);
                if q.done {
                    preceded(
                        record,
                        Outcome { records: seq![], stop: Some(Ok(after.offset)), progress: q },
                    )
                } else {
                    proof {
                        stream::lemma_work(st);
                    }
                    preceded(record, carved(plan, after, q))
                }
            },
        }
    }
}

/// The next thing that the driver has to say.
pub enum Output {
    NeedInput,
    Record(Json),
    Done,
    Failed(Failure),
}

/// The next thing that the driver has to say, and where it stands then.
pub open spec fn pulled(plan: Plan, st: State, p: Progress) -> (Output, State, Progress)
    decreases stream::work(st),
{
    if p.done {
        (Output::Done, st, p)
    } else {
        match markup::next(st) {
            None => (Output::NeedInput, st, p),
            Some((Err(failure), after)) => (Output::Failed(failure), after, p),
            Some((Ok(event), after)) => match step(plan, p, event) {
                (q, Some(value)) => (Output::Record(value), after, q),
                (q, None) => if q.done {
                    (Output::Done, after, q)
                } else {
                    proof {
                        stream::lemma_work(st);
                    }
                    pulled(plan, after, q)
                },
            },
        }
    }
}

/// What is said first is what the outcome begins with.
proof fn lemma_pulled(plan: Plan, st: State, p: Progress)
    ensures
        ({
            let (output, after, q) = pulled(plan, st, p);
            let o = carved(plan, st, p);
            &&& match output {
                Output::NeedInput => o == (Outcome { records: seq![], stop: None, progress: q })
                    && markup::next(after) is None,
                Output::Record(value) => o == preceded(Some(value), carved(plan, after, q))
                    && stream::work(after) < stream::work(st),
                Output::Done => o == (Outcome {
                    records: seq![],
                    stop: Some(Ok(after.offset)),
                    progress: q,
                }),
                Output::Failed(failure) => o == (Outcome {
                    records: seq![],
                    stop: Some(Err(failure)),
                    progress: q,
                }),
            }
            &&& after.closed == st.closed
            &&& after.offset + after.input.len() == st.offset + st.input.len()
        }),
    decreases stream::work(st),
{
    if !p.done {
        stream::lemma_work(st);
        stream::law_reply_effects(st);
        if let Some((Ok(event), after)) = markup::next(st) {
            let (q, record) = step(plan, p, event);
            if record is None && !q.done {
                lemma_pulled(plan, after, q);
            }
        }
    }
}

/// The path is that of the open elements, the counts agree with each other
/// and with what is under way, and no count exceeds the bytes read.
pub open spec fn coherent(plan: Plan, st: State, p: Progress) -> bool {
    &&& p.path == st.stack.map_values(
        |name: Seq<char>| record::mapped_name(name, plan.rules.strip_namespaces),
    )
    &&& 0 <= p.written
    &&& 0 <= p.matched <= st.offset
    &&& p.matched == (if p.matched <= plan.skip {
        p.matched
    } else {
        plan.skip
    }) + p.written + (if p.phase is Building {
        1int
    } else {
        0int
    })
    &&& match p.phase {
        Phase::Scanning => true,
        Phase::Skipping { depth } => 0 < depth <= p.path.len(),
        Phase::Building(draft) => 0 < draft.open.len() <= p.path.len() && draft.rules
            == plan.rules,
    }
}

/// Every event keeps the driver coherent with the parser.
proof fn lemma_step_coherent(plan: Plan, st: State, p: Progress)
    requires
        st.wf(),
        coherent(plan, st, p),
        plan.skip >= 0,
    ensures
        markup::next(st) matches Some((Ok(event), after)) ==> {
            &&& after.wf()
            &&& coherent(plan, after, step(plan, p, event).0)
            &&& event is Start ==> p.matched < after.offset
            &&& event is End ==> p.path.len() > 0
        },
{
    stream::law_reply_effects(st);
    stream::lemma_work(st);
    if let Some((Ok(event), after)) = markup::next(st) {
        let q = step(plan, p, event).0;
        let strip = plan.rules.strip_namespaces;
        let wanted = after.stack.map_values(|name: Seq<char>| record::mapped_name(name, strip));
        match event {
            EventView::Start { name, attributes } => {
                assert(q.path =~= wanted);
            },
            EventView::End { name } => {
                assert(q.path =~= wanted);
            },
            _ => {},
        }
    }
}

/// Everything `carve` needs to know, assembled by the CLI.
#[derive(Debug, Clone, PartialEq)]
pub struct CarveOptions {
    pub selectors: Vec<Selector>,
    /// Skip the first N matching records (they are parsed but not built).
    pub skip: u64,
    /// Stop after writing N records; parsing stops immediately after.
    pub limit: Option<u64>,
    pub map: MapOptions,
    pub parser: ParserOptions,
}

impl View for CarveOptions {
    type V = Plan;

    open spec fn view(&self) -> Plan {
        Plan {
            selectors: selector::patterns(self.selectors@),
            skip: self.skip as int,
            limit: match self.limit {
                Some(n) => Some(n as int),
                None => None,
            },
            rules: self.map@,
            lenient: self.parser.lenient_entities,
        }
    }
}

/// Counters reported by `--stats` and asserted by tests.
#[derive(Debug, Clone, Copy, PartialEq)]
pub struct CarveStats {
    /// Records that matched a selector (written + skipped).
    pub records_matched: u64,
    /// Records actually written as JSONL lines.
    pub records_written: u64,
    /// Bytes consumed from the input (equals file size unless `--limit`
    /// stopped parsing early).
    pub bytes_read: u64,
}

impl Default for CarveStats {
    fn default() -> (r: Self)
        ensures
            r == (CarveStats { records_matched: 0, records_written: 0, bytes_read: 0 }),
    {
        CarveStats { records_matched: 0, records_written: 0, bytes_read: 0 }
    }
}

/// Why a record could not be written.
#[derive(Debug, Clone, PartialEq)]
pub struct OutputError {
    pub message: String,
    /// The reader of the output has gone away.
    pub broken_pipe: bool,
}

/// Carve failure: either the XML was malformed or the output sink failed.
#[derive(Debug, Clone, PartialEq)]
pub enum CarveError {
    Parse(ParseError),
    Io(OutputError),
}

/// The failure as shown to a user.
pub open spec fn shown_error(e: CarveError) -> Seq<char> {
    match e {
        CarveError::Parse(e) => xml::shown_failure(e@),
        CarveError::Io(e) => "output error: "@ + e.message@,
    }
}

impl CarveError {
    /// The failure as shown to a user.
    pub fn to_string(&self) -> (r: String)
        ensures
            r@ == shown_error(*self),
    {
        match self {
            CarveError::Parse(e) => e.to_string(),
            CarveError::Io(e) => join2("output error: ", &e.message),
        }
    }
}

impl From<ParseError> for CarveError {
    fn from(e: ParseError) -> (r: Self) {
        CarveError::Parse(e)
    }
}

impl vstd::std_specs::convert::FromSpecImpl<ParseError> for CarveError {
    open spec fn obeys_from_spec() -> bool {
        true
    }

    open spec fn from_spec(e: ParseError) -> Self {
        CarveError::Parse(e)
    }
}

/// What the driver is doing with the element currently being read.
enum Stage {
    /// Outside any record: watching the path for a selector match.
    Scanning,
    /// Inside a matched record that falls under `--skip`: just tracking
    /// depth, building nothing (cheap).
    Skipping { depth: usize },
    /// Inside a matched record: feeding the builder.
    Building(RecordBuilder),
}

impl Stage {
    spec fn phase(self) -> Phase {
        match self {
            Stage::Scanning => Phase::Scanning,
            Stage::Skipping { depth } => Phase::Skipping { depth: depth as int },
            Stage::Building(builder) => Phase::Building(builder@),
        }
    }
}

/// One answer of [`Carver::pull`].
#[derive(Debug, PartialEq)]
pub enum Pulled {
    /// The bytes fed so far do not complete a record: feed more, or close.
    NeedInput,
    /// The next record.
    Record(Value),
    /// The input or the limit is used up.
    Done,
    /// The XML is malformed.
    Failed(ParseError),
}

impl View for Pulled {
    type V = Output;

    open spec fn view(&self) -> Output {
        match *self {
            Pulled::NeedInput => Output::NeedInput,
            Pulled::Record(value) => Output::Record(value.json()),
            Pulled::Done => Output::Done,
            Pulled::Failed(e) => Output::Failed(e@),
        }
    }
}

/// The tree of an optional value.
pub open spec fn opt_json(v: Option<Value>) -> Option<Json> {
    match v {
        Some(value) => Some(value.json()),
        None => None,
    }
}

/// The streaming driver over an input that is fed to it chunk by chunk.
pub struct Carver<'a> {
    opts: &'a CarveOptions,
    parser: Parser,
    path: Vec<String>,
    stage: Stage,
    records_matched: u64,
    records_written: u64,
    done: bool,
}

impl<'a> Carver<'a> {
    /// The configuration.
    pub closed spec fn plan(&self) -> Plan {
        self.opts@
    }

    /// The state of the parser.
    pub closed spec fn state(&self) -> State {
        self.parser@
    }

    /// Where the driver stands.
    pub closed spec fn progress(&self) -> Progress {
        Progress {
            path: text::views(self.path@),
            phase: self.stage.phase(),
            matched: self.records_matched as int,
            written: self.records_written as int,
            done: self.done,
        }
    }

    /// Number of input bytes in memory, consumed ones included.
    pub closed spec fn held(&self) -> nat {
        self.parser.held()
    }

    /// The driver's own consistency; every constructor establishes it and
    /// every method keeps it.
    pub closed spec fn wf(&self) -> bool {
        &&& self.parser.wf()
        &&& coherent(self.plan(), self.state(), self.progress())
    }

    /// A driver that has read nothing.
    pub fn new(opts: &'a CarveOptions) -> (r: Self)
        ensures
            r.wf(),
            r.plan() == opts@,
            r.state() == xml::fresh(seq![], false, opts@.lenient),
            r.progress() == idle(),
            r.held() == 0,
    {
        let r = Carver {
            opts,
            parser: Parser::streaming(opts.parser),
            path: Vec::new(),
            stage: Stage::Scanning,
            records_matched: 0,
            records_written: 0,
            done: false,
        };
        proof {
            let strip = opts@.rules.strip_namespaces;
            assert(r.progress().path =~= seq![]);
            assert(r.state().stack.map_values(
                |name: Seq<char>| record::mapped_name(name, strip),
            ) =~= seq![]);
        }
        r
    }

    /// Appends `chunk` to the input.
    pub fn feed(&mut self, chunk: &[u8])
        requires
            old(self).wf(),
            !old(self).state().closed,
            old(self).state().offset + old(self).state().input.len() + chunk@.len() < u64::MAX,
        ensures
            final(self).wf(),
            final(self).plan() == old(self).plan(),
            final(self).state() == old(self).state().with_more(chunk@),
            final(self).progress() == old(self).progress(),
            final(self).held() == old(self).state().input.len() + chunk@.len(),
    {
        self.parser.feed(chunk);
    }

    /// Declares the input complete.
    pub fn close(&mut self)
        requires
            old(self).wf(),
        ensures
            final(self).wf(),
            final(self).plan() == old(self).plan(),
            final(self).state() == (State { closed: true, ..old(self).state() }),
            final(self).progress() == old(self).progress(),
            final(self).held() <= old(self).held(),
    {
        self.parser.close();
    }

    /// The parser, for what it says about its input.
    pub fn parser(&self) -> (r: &Parser)
        requires
            self.wf(),
        ensures
            r.wf(),
            r@ == self.state(),
            r.held() == self.held(),
    {
        &self.parser
    }

    /// The counters as they stand.
    pub fn stats(&self) -> (r: CarveStats)
        requires
            self.wf(),
        ensures
            r.records_matched == self.progress().matched,
            r.records_written == self.progress().written,
            r.records_written <= r.records_matched,
            r.bytes_read == self.state().offset,
    {
        CarveStats {
            records_matched: self.records_matched,
            records_written: self.records_written,
            bytes_read: self.parser.bytes_read(),
        }
    }

    /// Takes one event in. Returns the record that it completes.
    fn handle(&mut self, event: Event) -> (r: Option<Value>)
        requires
            old(self).records_matched < u64::MAX,
            old(self).records_written < u64::MAX,
            event is End ==> old(self).path@.len() > 0 && (old(self).progress().phase matches
                Phase::Building(draft) ==> draft.open.len() > 0),
        ensures
            final(self).plan() == old(self).plan(),
            final(self).parser == old(self).parser,
            step(old(self).plan(), old(self).progress(), event@) == (
                final(self).progress(),
                opt_json(r),
            ),
    {
        match event {
            Event::Start { name, attributes } => {
                self.enter(&name, &attributes);
                None
            },
            Event::End { .. } => self.leave(),
            Event::Text(content) => {
                if let Stage::Building(builder) = &mut self.stage {
                    builder.text(&content, false);
                }
                None
            },
            Event::CData(content) => {
                if let Stage::Building(builder) = &mut self.stage {
                    builder.text(&content, true);
                }
                None
            },
            Event::Eof => {
                self.done = true;
                None
            },
            Event::Comment(_) | Event::Pi(_) | Event::Declaration | Event::Doctype => None,
        }
    }

    /// Takes a start tag in.
    fn enter(&mut self, name: &str, attributes: &[(String, String)])
        requires
            old(self).records_matched < u64::MAX,
        ensures
            final(self).plan() == old(self).plan(),
            final(self).parser == old(self).parser,
            final(self).progress() == entered(
                old(self).plan(),
                old(self).progress(),
                name@,
                text::pair_views(attributes@),
            ),
    {
        let ghost before = self.progress();
        let mapped = map_name(name, &self.opts.map);
        self.path.push(mapped);
        assert(self.progress().path =~= before.path.push(mapped@));
        match &mut self.stage {
            Stage::Scanning => {
                if any_match(&self.opts.selectors, &self.path) {
                    self.records_matched = self.records_matched + 1;
                    if self.records_matched <= self.opts.skip {
                        self.stage = Stage::Skipping { depth: self.path.len() };
                    } else {
                        let mut builder = RecordBuilder::new(self.opts.map.clone());
                        builder.start(name, attributes);
                        self.stage = Stage::Building(builder);
                    }
                }
            },
            Stage::Skipping { .. } => {},
            Stage::Building(builder) => builder.start(name, attributes),
        }
    }

    /// Takes an end tag in. Returns the record that it completes.
    fn leave(&mut self) -> (r: Option<Value>)
        requires
            old(self).records_written < u64::MAX,
            old(self).path@.len() > 0,
            old(self).progress().phase matches Phase::Building(draft) ==> draft.open.len() > 0,
        ensures
            final(self).plan() == old(self).plan(),
            final(self).parser == old(self).parser,
            left(old(self).plan(), old(self).progress()) == (final(self).progress(), opt_json(r)),
    {
        let ghost before = self.progress();
        let depth_now = self.path.len();
        let mut finished: Option<Value> = None;
        match &mut self.stage {
            Stage::Scanning => {},
            Stage::Skipping { depth } => {
                if depth_now == *depth {
                    self.stage = Stage::Scanning;
                }
            },
            Stage::Building(builder) => {
                finished = builder.end();
            },
        }
        if finished.is_some() {
            self.stage = Stage::Scanning;
            self.records_written = self.records_written + 1;
            self.done = match self.opts.limit {
                Some(n) => self.records_written >= n,
                None => false,
            };
        }
        let popped = self.path.pop();
        assert(self.progress().path =~= before.path.drop_last());
        finished
    }

    /// Reads on to the next record, as far as the input goes.
    pub fn pull(&mut self) -> (r: Pulled)
        requires
            old(self).wf(),
        ensures
            final(self).wf(),
            final(self).plan() == old(self).plan(),
            pulled(old(self).plan(), old(self).state(), old(self).progress()) == (
                r@,
                final(self).state(),
                final(self).progress(),
            ),
            final(self).state().closed == old(self).state().closed,
            final(self).state().offset + final(self).state().input.len() == old(
                self,
            ).state().offset + old(self).state().input.len(),
            final(self).held() <= old(self).held(),
    {
        proof {
            lemma_pulled(self.plan(), self.state(), self.progress());
        }
        self.read_on()
    }

    /// Takes events in until there is something to say.
    #[verifier::spinoff_prover]
    fn read_on(&mut self) -> (r: Pulled)
        requires
            old(self).wf(),
        ensures
            final(self).wf(),
            final(self).plan() == old(self).plan(),
            pulled(old(self).plan(), old(self).state(), old(self).progress()) == (
                r@,
                final(self).state(),
                final(self).progress(),
            ),
            final(self).held() <= old(self).held(),
    {
        while !self.done
            invariant
                self.wf(),
                self.held() <= old(self).held(),
                self.plan() == old(self).plan(),
                pulled(self.plan(), self.state(), self.progress()) == pulled(
                    old(self).plan(),
                    old(self).state(),
                    old(self).progress(),
                ),
            decreases
                stream::work(self.state()),
                (if self.done {
                    0int
                } else {
                    1int
                }),
        {
            if let Some(answer) = self.advance() {
                return answer;
            }
        }
        Pulled::Done
    }

    /// Takes one event in, if there is one. Returns what there is to say.
    fn advance(&mut self) -> (r: Option<Pulled>)
        requires
            old(self).wf(),
            !old(self).done,
        ensures
            final(self).wf(),
            final(self).held() <= old(self).held(),
            final(self).plan() == old(self).plan(),
            match r {
                Some(answer) => pulled(old(self).plan(), old(self).state(), old(self).progress())
                    == (answer@, final(self).state(), final(self).progress()),
                None => pulled(old(self).plan(), old(self).state(), old(self).progress()) == pulled(
                    final(self).plan(),
                    final(self).state(),
                    final(self).progress(),
                ) && (final(self).done && stream::work(final(self).state()) <= stream::work(
                    old(self).state(),
                ) || stream::work(final(self).state()) < stream::work(old(self).state())),
            },
    {
        let ghost st = self.state();
        let ghost p = self.progress();
        proof {
            self.parser.lemma_wf();
            lemma_step_coherent(self.plan(), st, p);
            stream::lemma_work(st);
            stream::law_reply_effects(st);
        }
        match self.parser.poll_event() {
            None => Some(Pulled::NeedInput),
            Some(Err(e)) => Some(Pulled::Failed(e)),
            Some(Ok(event)) => {
                proof {
                    self.parser.lemma_wf();
                }
                match self.handle(event) {
                    Some(value) => Some(Pulled::Record(value)),
                    None => None,
                }
            },
        }
    }
}

/// The JSONL text of a list of values: one line each.
pub open spec fn jsonl(lines: Seq<Json>) -> Seq<u8>
    decreases lines.len(),
{
    if lines.len() == 0 {
        seq![]
    } else {
        jsonl(lines.drop_last()) + vstd::utf8::encode_utf8(json::json_text(lines.last())) + seq![LF]
    }
}

/// `lines` are the records with answers of `show` in the place of their floats.
pub open spec fn rendered_lines<F: Fn(&str) -> String>(
    show: F,
    records: Seq<Json>,
    lines: Seq<Json>,
) -> bool {
    &&& lines.len() == records.len()
    &&& forall|i: int|
        0 <= i < records.len() ==> json::renders(show, records[i], #[trigger] lines[i])
}

/// The bytes that were added to `before` are the records, one line each.
pub open spec fn wrote<F: Fn(&str) -> String>(
    show: F,
    records: Seq<Json>,
    before: Seq<u8>,
    after: Seq<u8>,
) -> bool {
    exists|lines: Seq<Json>| #[trigger]
        rendered_lines(show, records, lines) && after == before + jsonl(lines)
}

/// Appends one record as a line of JSONL, with floats as `show` gives them.
pub fn write_record<F: Fn(&str) -> String>(record: &Value, out: &mut Vec<u8>, show: &F)
    requires
        forall|s: &str| #[trigger] call_requires(*show, (s,)),
    ensures
        exists|line: Json| #[trigger]
            json::renders(*show, record.json(), line) && final(out)@ == old(out)@
                + vstd::utf8::encode_utf8(json::json_text(line)) + seq![LF],
{
    let line = record.to_json(show);
    out.extend_from_slice(line.as_str().as_bytes());
    out.push(LF);
    proof {
        let k = choose|k: Json| #[trigger]
            json::renders(*show, record.json(), k) && line@ == json::json_text(k);
        assert(out@ =~= old(out)@ + vstd::utf8::encode_utf8(json::json_text(k)) + seq![LF]);
    }
}

/// `lines` are the rendered records of `whole` up to where `rest` begins.
spec fn halfway<F: Fn(&str) -> String>(
    show: F,
    whole: Outcome,
    rest: Outcome,
    lines: Seq<Json>,
) -> bool {
    let n = lines.len() as int;
    &&& n <= whole.records.len()
    &&& rendered_lines(show, whole.records.take(n), lines)
    &&& rest == (Outcome { records: whole.records.skip(n), ..whole })
}

proof fn lemma_halfway<F: Fn(&str) -> String>(
    show: F,
    whole: Outcome,
    rest: Outcome,
    lines: Seq<Json>,
    value: Json,
    after: Outcome,
    line: Json,
)
    requires
        halfway(show, whole, rest, lines),
        rest == preceded(Some(value), after),
        json::renders(show, value, line),
    ensures
        halfway(show, whole, after, lines.push(line)),
        jsonl(lines.push(line)) == jsonl(lines) + vstd::utf8::encode_utf8(json::json_text(line))
            + seq![LF],
{
    let n = lines.len() as int;
    assert(rest.records == seq![value] + after.records);
    assert(rest.records[0] == value);
    assert(whole.records[n] == value);
    assert(after.records =~= whole.records.skip(n + 1)) by {
        assert(after.records =~= rest.records.skip(1));
    }
    let more = lines.push(line);
    assert forall|i: int| 0 <= i < n + 1 implies json::renders(
        show,
        whole.records.take(n + 1)[i],
        #[trigger] more[i],
    ) by {
        if i < n {
            assert(more[i] == lines[i]);
            assert(whole.records.take(n)[i] == whole.records.take(n + 1)[i]);
        }
    }
    assert(more.drop_last() =~= lines);
}

/// Where nothing is left, all lines are there.
proof fn lemma_all_the_way<F: Fn(&str) -> String>(
    show: F,
    whole: Outcome,
    rest: Outcome,
    lines: Seq<Json>,
)
    requires
        halfway(show, whole, rest, lines),
        rest.records.len() == 0,
    ensures
        rendered_lines(show, whole.records, lines),
        rest.stop == whole.stop,
        rest.progress == whole.progress,
{
    assert(whole.records.take(lines.len() as int) =~= whole.records);
}

/// Carve a whole document, writing one JSON line per matched record to `out`.
/// `show` gives the decimal form of the number that a float literal denotes.
#[verifier::spinoff_prover]
pub fn carve<F: Fn(&str) -> String>(
    input: &[u8],
    out: &mut Vec<u8>,
    opts: &CarveOptions,
    show: &F,
) -> (r: Result<CarveStats, CarveError>)
    requires
        input@.len() < u64::MAX,
        forall|s: &str| #[trigger] call_requires(*show, (s,)),
    ensures
        ({
            let o = carved(opts@, xml::fresh(input@, true, opts@.lenient), idle());
            &&& wrote(*show, o.records, old(out)@, final(out)@)
            &&& match r {
                Ok(stats) => o.stop == Some(Ok::<int, Failure>(stats.bytes_read as int))
                    && stats.records_matched == o.progress.matched && stats.records_written
                    == o.progress.written,
                Err(CarveError::Parse(e)) => o.stop == Some(Err::<int, Failure>(e@)),
                Err(CarveError::Io(_)) => false,
            }
        }),
{
    let mut carver = Carver::new(opts);
    carver.feed(input);
    carver.close();
    let ghost whole = carved(opts@, xml::fresh(input@, true, opts@.lenient), idle());
    let ghost mut lines: Seq<Json> = seq![];
    proof {
        assert(carver.state() =~= xml::fresh(input@, true, opts@.lenient));
        assert(whole.records.skip(0) =~= whole.records);
        assert(out@ =~= old(out)@ + jsonl(lines));
    }
    loop
        invariant
            carver.wf(),
            carver.plan() == opts@,
            carver.state().closed,
            forall|s: &str| #[trigger] call_requires(*show, (s,)),
            halfway(*show, whole, carved(opts@, carver.state(), carver.progress()), lines),
            out@ == old(out)@ + jsonl(lines),
            whole == carved(opts@, xml::fresh(input@, true, opts@.lenient), idle()),
        decreases stream::work(carver.state()),
    {
        let ghost rest = carved(opts@, carver.state(), carver.progress());
        proof {
            lemma_pulled(opts@, carver.state(), carver.progress());
        }
        match carver.pull() {
            Pulled::Record(value) => {
                let ghost held = out@;
                write_record(&value, out, show);
                proof {
                    let line = choose|line: Json| #[trigger]
                        json::renders(*show, value.json(), line) && out@ == held
                            + vstd::utf8::encode_utf8(json::json_text(line)) + seq![LF];
                    let after = carved(opts@, carver.state(), carver.progress());
                    lemma_halfway(*show, whole, rest, lines, value.json(), after, line);
                    lines = lines.push(line);
                    assert(out@ =~= old(out)@ + jsonl(lines));
                }
            },
            Pulled::Done => {
                proof {
                    lemma_all_the_way(*show, whole, rest, lines);
                }
                return Ok(carver.stats());
            },
            Pulled::Failed(e) => {
                proof {
                    lemma_all_the_way(*show, whole, rest, lines);
                }
                return Err(CarveError::Parse(e));
            },
            Pulled::NeedInput => {
                // The input is complete, so there is always an answer.
                proof {
                    markup::law_closed_input_decides(carver.state());
                }
                return Ok(vstd::pervasive::unreached());
            },
        }
    }
}

/// The limit of the plan is used up.
pub open spec fn limit_reached(plan: Plan, p: Progress) -> bool {
    plan.limit matches Some(n) && p.written >= n
}

/// How a run that goes on from `p` ends.
spec fn ends_well(plan: Plan, st: State, p: Progress, o: Outcome) -> bool {
    let q = o.progress;
    &&& q.written == p.written + o.records.len()
    &&& q.matched == (if q.matched <= plan.skip {
        q.matched
    } else {
        plan.skip
    }) + q.written + (if q.phase is Building {
        1int
    } else {
        0int
    })
    &&& 0 <= q.written <= q.matched
    &&& plan.limit matches Some(n) ==> 1 <= n ==> q.written <= n
    &&& o.stop matches Some(Ok(n)) ==> {
        &&& q.phase is Scanning
        &&& st.offset <= n <= st.offset + st.input.len()
        &&& n == st.offset + st.input.len() || limit_reached(plan, q)
    }
    &&& st.closed ==> o.stop is Some
}

#[verifier::spinoff_prover]
proof fn lemma_ends_well(plan: Plan, st: State, p: Progress)
    requires
        st.wf(),
        coherent(plan, st, p),
        plan.skip >= 0,
        !p.done,
        plan.limit matches Some(n) ==> 1 <= n ==> p.written < n,
    ensures
        ends_well(plan, st, p, carved(plan, st, p)),
    decreases stream::work(st),
{
    stream::lemma_work(st);
    stream::law_reply_effects(st);
    lemma_step_coherent(plan, st, p);
    if st.closed {
        markup::law_closed_input_decides(st);
    }
    if let Some((Ok(event), after)) = markup::next(st) {
        let (q, record) = step(plan, p, event);
        if q.done {
            if event is Eof {
                assert(q.path =~= seq![]);
            }
        } else {
            lemma_ends_well(plan, after, q);
        }
    }
}

/// The counters of a document add up. Each record is counted once, as matched
/// and, unless it is one of the first that the plan skips, as written; one
/// that a failure cut short is matched and not written. A limit of at least
/// one is kept.
/// Without a failure all of the input is read, unless the limit ends the run.
pub proof fn law_counters_add_up(plan: Plan, input: Seq<u8>)
    requires
        plan.skip >= 0,
    ensures
        ({
            let o = carved(plan, xml::fresh(input, true, plan.lenient), idle());
            let q = o.progress;
            let skipped = if q.matched <= plan.skip {
                q.matched
            } else {
                plan.skip
            };
            &&& q.written == o.records.len()
            &&& q.written + skipped <= q.matched <= q.written + skipped + 1
            &&& plan.limit matches Some(n) ==> 1 <= n ==> q.written <= n
            &&& match o.stop {
                Some(Ok(n)) => q.matched == q.written + skipped && 0 <= n <= input.len() && (n
                    == input.len() || limit_reached(plan, q)),
                Some(Err(_)) => true,
                None => false,
            }
        }),
{
    let st = xml::fresh(input, true, plan.lenient);
    let strip = plan.rules.strip_namespaces;
    assert(st.stack.map_values(|name: Seq<char>| record::mapped_name(name, strip)) =~= seq![]);
    lemma_ends_well(plan, st, idle());
}

/// Records never nest: inside a record, built or skipped, no start tag counts
/// as a match.
pub proof fn law_records_never_nest(
    plan: Plan,
    p: Progress,
    name: Seq<char>,
    attributes: Seq<(Seq<char>, Seq<char>)>,
)
    requires
        !(p.phase is Scanning),
    ensures
        entered(plan, p, name, attributes).matched == p.matched,
        !(entered(plan, p, name, attributes).phase is Scanning),
{
}

/// At most `limit` items behind the first `skip`.
pub open spec fn window(records: Seq<Json>, skip: int, limit: Option<int>) -> Seq<Json> {
    let rest = if skip <= records.len() {
        records.skip(skip)
    } else {
        seq![]
    };
    match limit {
        Some(n) => if n <= rest.len() {
            rest.take(n)
        } else {
            rest
        },
        None => rest,
    }
}

/// How many records are still to be skipped, and how many to be written.
spec fn still_to_skip(skip: int, done: int) -> int {
    if done < skip {
        skip - done
    } else {
        0
    }
}

spec fn still_to_write(limit: Option<int>, written: int) -> Option<int> {
    match limit {
        Some(n) => Some(n - written),
        None => None,
    }
}

/// `b` stands where `a` does, but for the records that it skips.
spec fn alongside(part: Plan, a: Progress, b: Progress) -> bool {
    &&& !a.done && !b.done
    &&& a.path == b.path
    &&& a.matched == b.matched
    &&& 0 <= a.written
    &&& a.matched == a.written + (if a.phase is Building {
        1int
    } else {
        0int
    })
    &&& b.written == (if a.written < part.skip {
        0
    } else {
        a.written - part.skip
    })
    &&& part.limit matches Some(n) ==> b.written < n
    &&& match b.phase {
        Phase::Scanning => a.phase is Scanning,
        Phase::Building(_) => a.phase == b.phase && part.skip < a.matched,
        Phase::Skipping { depth } => a.matched <= part.skip && (a.phase matches Phase::Building(
            draft,
        ) && draft.open.len() == a.path.len() - depth + 1),
    }
}

/// One event keeps the two together: a record comes out of both, or it is one
/// that is skipped.
#[verifier::spinoff_prover]
proof fn lemma_alongside(whole: Plan, part: Plan, a: Progress, b: Progress, event: EventView)
    requires
        whole == (Plan { skip: 0, limit: None, ..part }),
        part.skip >= 0,
        alongside(part, a, b),
        a.phase matches Phase::Building(draft) ==> draft.open.len() > 0,
        event is End ==> a.path.len() > 0,
    ensures
        ({
            let (qa, ra) = step(whole, a, event);
            let (qb, rb) = step(part, b, event);
            let skip = still_to_skip(part.skip, a.written);
            let limit = still_to_write(part.limit, b.written);
            &&& qa.done <==> event is Eof
            &&& event is Eof ==> qb.done && ra is None && rb is None
            &&& !(event is Eof) && qb.done ==> rb is Some && limit == Some(1int)
            &&& !(event is Eof) && !qb.done ==> alongside(part, qa, qb)
            &&& still_to_write(part.limit, qb.written) == (match (limit, rb) {
                (Some(n), Some(_)) => Some(n - 1),
                _ => limit,
            })
            &&& match (ra, rb) {
                (None, None) => still_to_skip(part.skip, qa.written) == skip,
                (Some(_), None) => skip > 0 && still_to_skip(part.skip, qa.written) == skip - 1,
                (Some(_), Some(_)) => ra == rb && skip == 0 && still_to_skip(part.skip, qa.written)
                    == 0,
                (None, Some(_)) => false,
            }
        }),
{
    match event {
        EventView::Start { name, attributes } => {},
        EventView::End { name } => {
            if let Phase::Building(draft) = a.phase {
                let (rest, value) = record::ended(draft);
                assert(value is Some <==> draft.open.len() == 1);
                assert(value is None ==> rest.open.len() == draft.open.len() - 1);
            }
        },
        _ => {},
    }
}

/// A window of a list that begins with `value`.
proof fn lemma_window_of(value: Json, rest: Seq<Json>, skip: int, limit: Option<int>)
    requires
        skip >= 0,
        limit matches Some(n) ==> n >= 1,
    ensures
        window(seq![value] + rest, skip, limit) == (if skip > 0 {
            window(rest, skip - 1, limit)
        } else {
            seq![value] + window(
                rest,
                0,
                match limit {
                    Some(n) => Some(n - 1),
                    None => None,
                },
            )
        }),
{
    let all = seq![value] + rest;
    if skip > 0 {
        if skip <= all.len() {
            assert(all.skip(skip) =~= rest.skip(skip - 1));
        }
    } else {
        assert(all.skip(0) =~= all);
        assert(rest.skip(0) =~= rest);
        if let Some(n) = limit {
            if n <= all.len() {
                assert(all.take(n) =~= seq![value] + rest.take(n - 1));
            }
        }
    }
}

/// The run came to its end without a failure.
pub open spec fn succeeded(o: Outcome) -> bool {
    o.stop matches Some(Ok(_))
}

/// A windowed run ends as the whole run does, unless its limit ends it first,
/// which is no failure.
pub open spec fn same_stop(part: Plan, whole: Outcome, windowed: Outcome) -> bool {
    ||| windowed.stop == whole.stop
    ||| limit_reached(part, windowed.progress) && succeeded(windowed)
}

#[verifier::spinoff_prover]
proof fn lemma_window(whole: Plan, part: Plan, st: State, a: Progress, b: Progress)
    requires
        st.wf(),
        coherent(whole, st, a),
        whole == (Plan { skip: 0, limit: None, ..part }),
        part.skip >= 0,
        alongside(part, a, b),
    ensures
        carved(part, st, b).records == window(
            carved(whole, st, a).records,
            still_to_skip(part.skip, a.written),
            still_to_write(part.limit, b.written),
        ),
        same_stop(part, carved(whole, st, a), carved(part, st, b)),
    decreases stream::work(st),
{
    let skip = still_to_skip(part.skip, a.written);
    let limit = still_to_write(part.limit, b.written);
    assert(window(seq![], skip, limit) =~= seq![]);
    stream::lemma_work(st);
    if let Some((Ok(event), after)) = markup::next(st) {
        lemma_step_coherent(whole, st, a);
        lemma_alongside(whole, part, a, b, event);
        let (qa, ra) = step(whole, a, event);
        let (qb, rb) = step(part, b, event);
        if !qa.done {
            let rest = carved(whole, after, qa).records;
            if let Some(value) = ra {
                lemma_window_of(value, rest, skip, limit);
            }
            if qb.done {
                assert(window(rest, 0, Some(0int)) =~= seq![]);
                assert(carved(part, st, b).records =~= seq![rb->0]);
            } else {
                lemma_window(whole, part, after, qa, qb);
            }
        }
    }
}

/// Skip and limit cut a window out of the records: a plan with them writes,
/// of the records that it would write without them, `limit` behind the first
/// `skip`. It succeeds where the plan without them does, and fails only as
/// that one does.
pub proof fn law_skip_and_limit_cut_a_window(plan: Plan, input: Seq<u8>)
    requires
        plan.skip >= 0,
        plan.limit matches Some(n) ==> 1 <= n,
    ensures
        ({
            let st = xml::fresh(input, true, plan.lenient);
            let all = carved(Plan { skip: 0, limit: None, ..plan }, st, idle());
            let some = carved(plan, st, idle());
            &&& some.records == window(all.records, plan.skip, plan.limit)
            &&& succeeded(all) ==> succeeded(some)
            &&& same_stop(plan, all, some)
        }),
{
    let st = xml::fresh(input, true, plan.lenient);
    let whole = Plan { skip: 0, limit: None, ..plan };
    let strip = plan.rules.strip_namespaces;
    assert(st.stack.map_values(|name: Seq<char>| record::mapped_name(name, strip)) =~= seq![]);
    lemma_window(whole, plan, st, idle(), idle());
}

/// The lines of given records are determined, if `show` answers alike.
proof fn lemma_lines_are_determined<F: Fn(&str) -> String>(
    show: F,
    records: Seq<Json>,
    a: Seq<Json>,
    b: Seq<Json>,
)
    requires
        json::shows_alike(show),
        rendered_lines(show, records, a),
        rendered_lines(show, records, b),
    ensures
        a == b,
{
    assert forall|i: int| 0 <= i < records.len() implies a[i] == b[i] by {
        json::law_rendering_is_determined(show, records[i], a[i], b[i]);
    }
    assert(a =~= b);
}

/// The same records give the same bytes: output is deterministic, as far as
/// `show` is.
pub proof fn law_output_is_deterministic<F: Fn(&str) -> String>(
    show: F,
    records: Seq<Json>,
    before: Seq<u8>,
    a: Seq<u8>,
    b: Seq<u8>,
)
    requires
        json::shows_alike(show),
        wrote(show, records, before, a),
        wrote(show, records, before, b),
    ensures
        a == b,
{
    let x = choose|lines: Seq<Json>| #[trigger]
        rendered_lines(show, records, lines) && a == before + jsonl(lines);
    let y = choose|lines: Seq<Json>| #[trigger]
        rendered_lines(show, records, lines) && b == before + jsonl(lines);
    lemma_lines_are_determined(show, records, x, y);
}

/// Skip and limit cut their window out of the output too: where the whole run
/// appends `lines`, the run with them appends exactly the lines of the window,
/// byte for byte.
pub proof fn law_the_window_is_cut_out_of_the_output<F: Fn(&str) -> String>(
    plan: Plan,
    input: Seq<u8>,
    show: F,
    lines: Seq<Json>,
    before: Seq<u8>,
    after: Seq<u8>,
)
    requires
        plan.skip >= 0,
        plan.limit matches Some(n) ==> 1 <= n,
        json::shows_alike(show),
        rendered_lines(
            show,
            carved(
                Plan { skip: 0, limit: None, ..plan },
                xml::fresh(input, true, plan.lenient),
                idle(),
            ).records,
            lines,
        ),
        wrote(
            show,
            carved(plan, xml::fresh(input, true, plan.lenient), idle()).records,
            before,
            after,
        ),
    ensures
        after == before + jsonl(window(lines, plan.skip, plan.limit)),
{
    let st = xml::fresh(input, true, plan.lenient);
    let all = carved(Plan { skip: 0, limit: None, ..plan }, st, idle()).records;
    let some = carved(plan, st, idle()).records;
    law_skip_and_limit_cut_a_window(plan, input);
    let wanted = window(lines, plan.skip, plan.limit);
    assert forall|i: int| 0 <= i < some.len() implies json::renders(
        show,
        some[i],
        #[trigger] wanted[i],
    ) by {
        assert(wanted[i] == lines[plan.skip + i]);
        assert(some[i] == all[plan.skip + i]);
    }
    let written = choose|lines: Seq<Json>| #[trigger]
        rendered_lines(show, some, lines) && after == before + jsonl(lines);
    lemma_lines_are_determined(show, some, written, wanted);
}

/// What follows in the input changes nothing that is already decided. The
/// records that are complete stay the first ones, so damage behind them does
/// not undo them; and where a run has ended, by its limit or by a failure,
/// nothing behind that point is looked at.
pub proof fn law_later_bytes_change_no_record(
    plan: Plan,
    st: State,
    p: Progress,
    more: Seq<u8>,
    closed: bool,
)
    requires
        !st.closed,
    ensures
        ({
            let o = carved(plan, st, p);
            let w = carved(plan, stream::grown(st, more, closed), p);
            &&& o.records.is_prefix_of(w.records)
            &&& o.stop is Some ==> w == o
        }),
    decreases stream::work(st),
{
    if !p.done {
        stream::lemma_work(st);
        stream::law_reply_effects(st);
        if markup::next(st) is Some {
            stream::law_more_input_keeps_a_decided_reply(st, more, closed);
        }
        if let Some((Ok(event), after)) = markup::next(st) {
            let (q, record) = step(plan, p, event);
            if !q.done {
                law_later_bytes_change_no_record(plan, after, q, more, closed);
                let o = carved(plan, after, q);
                let w = carved(plan, stream::grown(after, more, closed), q);
                if let Some(value) = record {
                    assert((seq![value] + o.records).is_prefix_of(seq![value] + w.records));
                }
            }
        }
    }
}

/// The outcome of a driver that is fed `chunks`, each when it asks for input,
/// and then told that the input is complete.
pub open spec fn driven(plan: Plan, st: State, p: Progress, chunks: Seq<Seq<u8>>) -> Outcome
    decreases chunks.len(), stream::work(st),
{
    match pulled(plan, st, p) {
        (Output::NeedInput, after, q) => if chunks.len() == 0 {
            carved(plan, State { closed: true, ..after }, q)
        } else {
            driven(plan, after.with_more(chunks[0]), q, chunks.drop_first())
        },
        (Output::Record(value), after, q) => {
            proof {
                lemma_pulled_work(plan, st, p);
            }
            preceded(Some(value), driven(plan, after, q, chunks))
        },
        (Output::Done, after, q) => Outcome {
            records: seq![],
            stop: Some(Ok(after.offset)),
            progress: q,
        },
        (Output::Failed(failure), after, q) => Outcome {
            records: seq![],
            stop: Some(Err(failure)),
            progress: q,
        },
    }
}

/// A record leaves less to read.
pub proof fn lemma_pulled_work(plan: Plan, st: State, p: Progress)
    ensures
        pulled(plan, st, p).0 is Record ==> stream::work(pulled(plan, st, p).1) < stream::work(st),
{
    lemma_pulled(plan, st, p);
}

/// What the driver says of an input it says of a longer one, unless it asked
/// for more.
proof fn lemma_pulled_grown(plan: Plan, st: State, p: Progress, more: Seq<u8>, closed: bool)
    requires
        !st.closed,
    ensures
        ({
            let (output, after, q) = pulled(plan, st, p);
            let grown = stream::grown(st, more, closed);
            &&& !(output is NeedInput) ==> pulled(plan, grown, p) == (
                output,
                stream::grown(after, more, closed),
                q,
            )
            &&& carved(plan, grown, p) == (match output {
                Output::NeedInput => carved(plan, stream::grown(after, more, closed), q),
                Output::Record(value) => preceded(
                    Some(value),
                    carved(plan, stream::grown(after, more, closed), q),
                ),
                _ => carved(plan, st, p),
            })
        }),
    decreases stream::work(st),
{
    if !p.done {
        stream::lemma_work(st);
        stream::law_reply_effects(st);
        if markup::next(st) is Some {
            stream::law_more_input_keeps_a_decided_reply(st, more, closed);
        }
        if let Some((Ok(event), after)) = markup::next(st) {
            let (q, record) = step(plan, p, event);
            if record is None && !q.done {
                lemma_pulled_grown(plan, after, q, more, closed);
            }
        }
    }
    lemma_pulled(plan, st, p);
    lemma_pulled(plan, stream::grown(st, more, closed), p);
}

/// The chunks in which a document arrives make no difference to what is
/// carved out of it.
pub proof fn law_chunks_make_no_difference(
    plan: Plan,
    st: State,
    p: Progress,
    chunks: Seq<Seq<u8>>,
)
    requires
        !st.closed,
    ensures
        driven(plan, st, p, chunks) == carved(
            plan,
            stream::grown(st, chunks.flatten(), true),
            p,
        ),
    decreases chunks.len(), stream::work(st),
{
    let (output, after, q) = pulled(plan, st, p);
    lemma_pulled(plan, st, p);
    lemma_pulled_grown(plan, st, p, chunks.flatten(), true);
    match output {
        Output::NeedInput => if chunks.len() == 0 {
            assert(chunks.flatten() =~= seq![]);
            assert(after.input + chunks.flatten() =~= after.input);
            assert(stream::grown(after, chunks.flatten(), true) =~= State { closed: true, ..after });
        } else {
            let fed = after.with_more(chunks[0]);
            let rest = chunks.drop_first();
            law_chunks_make_no_difference(plan, fed, q, rest);
            assert(chunks.flatten() == chunks.first() + rest.flatten());
            assert(after.input + chunks.flatten() =~= fed.input + rest.flatten());
            assert(stream::grown(after, chunks.flatten(), true) =~= stream::grown(
                fed,
                rest.flatten(),
                true,
            ));
        },
        Output::Record(value) => {
            law_chunks_make_no_difference(plan, after, q, chunks);
        },
        _ => {},
    }
}

/// The UTF-8 encoding of a character that is no control character holds no
/// line feed.
proof fn lemma_encoded_char(c: u32)
    requires
        0x1f < c,
    ensures
        markup::newlines(vstd::utf8::encode_scalar(c)) == 0,
{
    let bytes = vstd::utf8::encode_scalar(c);
    assert(c <= 0x7f ==> (c & 0x7f) as u8 == c) by (bit_vector);
    assert((0xc0 | ((c >> 6) & 0x1f) as u8) >= 0x80) by (bit_vector);
    assert((0xe0 | ((c >> 12) & 0x0f) as u8) >= 0x80) by (bit_vector);
    assert((0xf0 | ((c >> 18) & 0x7) as u8) >= 0x80) by (bit_vector);
    assert((0x80 | (c & 0x3f) as u8) >= 0x80) by (bit_vector);
    assert((0x80 | ((c >> 6) & 0x3f) as u8) >= 0x80) by (bit_vector);
    assert((0x80 | ((c >> 12) & 0x3f) as u8) >= 0x80) by (bit_vector);
    lemma_no_line_feed(bytes);
}

proof fn lemma_no_line_feed(bytes: Seq<u8>)
    requires
        forall|i: int| 0 <= i < bytes.len() ==> #[trigger] bytes[i] != LF,
    ensures
        markup::newlines(bytes) == 0,
    decreases bytes.len(),
{
    if bytes.len() > 0 {
        lemma_no_line_feed(bytes.drop_last());
    }
}

/// Text without control characters is encoded without line feeds.
proof fn lemma_encoded_text(s: Seq<char>)
    requires
        json::no_control(s),
    ensures
        markup::newlines(vstd::utf8::encode_utf8(s)) == 0,
    decreases s.len(),
{
    if s.len() > 0 {
        let rest = s.drop_first();
        assert forall|i: int| 0 <= i < rest.len() implies 0x1f < #[trigger] rest[i] as u32 by {
            assert(rest[i] == s[i + 1]);
        }
        lemma_encoded_text(rest);
        assert(0x1f < s[0] as u32);
        lemma_encoded_char(s[0] as u32);
        stream::lemma_newlines(
            vstd::utf8::encode_scalar(s[0] as u32),
            vstd::utf8::encode_utf8(rest),
        );
    }
}

proof fn lemma_jsonl_lines(lines: Seq<Json>)
    requires
        forall|i: int| 0 <= i < lines.len() ==> json::plain_floats(#[trigger] lines[i]),
    ensures
        markup::newlines(jsonl(lines)) == lines.len(),
    decreases lines.len(),
{
    if lines.len() > 0 {
        let init = lines.drop_last();
        assert forall|i: int| 0 <= i < init.len() implies json::plain_floats(
            #[trigger] init[i],
        ) by {
            assert(init[i] == lines[i]);
        }
        lemma_jsonl_lines(init);
        let text = json::json_text(lines.last());
        assert(json::plain_floats(lines[lines.len() - 1]));
        json::law_one_record_is_one_line(lines.last());
        lemma_encoded_text(text);
        let bytes = vstd::utf8::encode_utf8(text);
        stream::lemma_newlines(jsonl(init), bytes);
        stream::lemma_newlines(jsonl(init) + bytes, seq![LF]);
        assert(markup::newlines(seq![LF]) == 1) by {
            reveal_with_fuel(markup::newlines, 2);
            assert(seq![LF].drop_last() =~= seq![]);
        }
    }
}

/// One record is one line: whatever the document holds, carving it adds as
/// many lines to the output as there are records, so that no record is spread
/// over two.
pub proof fn law_one_line_per_record<F: Fn(&str) -> String>(
    plan: Plan,
    input: Seq<u8>,
    show: F,
    before: Seq<u8>,
    after: Seq<u8>,
)
    requires
        json::shows_plain(show),
        wrote(
            show,
            carved(plan, xml::fresh(input, true, plan.lenient), idle()).records,
            before,
            after,
        ),
    ensures
        markup::newlines(after) == markup::newlines(before) + carved(
            plan,
            xml::fresh(input, true, plan.lenient),
            idle(),
        ).records.len(),
{
    let records = carved(plan, xml::fresh(input, true, plan.lenient), idle()).records;
    let lines = choose|lines: Seq<Json>| #[trigger]
        rendered_lines(show, records, lines) && after == before + jsonl(lines);
    assert forall|i: int| 0 <= i < lines.len() implies json::plain_floats(#[trigger] lines[i]) by {
        json::law_rendered_values_are_plain(show, records[i], lines[i]);
    }
    lemma_jsonl_lines(lines);
    stream::lemma_newlines(before, jsonl(lines));
}

/// A record is made of its own element alone: of two drivers that build the
/// same draft, wherever they stand, the same event makes the same of it.
pub proof fn law_records_depend_on_their_own_content(
    plan: Plan,
    p: Progress,
    q: Progress,
    event: EventView,
)
    requires
        p.phase is Building,
        p.phase == q.phase,
    ensures
        step(plan, p, event).0.phase == step(plan, q, event).0.phase,
        step(plan, p, event).1 == step(plan, q, event).1,
{
}

/// What is no element flows past: declarations, comments and processing
/// instructions everywhere, and text outside the records that are built.
pub proof fn law_everything_else_flows_past(plan: Plan, p: Progress, event: EventView)
    requires
        match event {
            EventView::Declaration | EventView::Doctype | EventView::Comment(_) | EventView::Pi(
                _,
            ) => true,
            EventView::Text(_) | EventView::CData(_) => !(p.phase is Building),
            _ => false,
        },
    ensures
        step(plan, p, event) == (p, None::<Json>),
{
}

} // verus!
