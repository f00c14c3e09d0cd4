//! Argument parsing and command dispatch.
//!
//! Parsing is hand-rolled (zero dependencies) and split into pure functions
//! that return a command struct or an error string, so every flag
//! combination is unit-testable without spawning a process. What a run says
//! at its end, and with which exit code, is decided here too; the caller only
//! reads and writes.

use vstd::prelude::*;

use crate::carve;
use crate::carve::{CarveError, CarveOptions, CarveStats, Plan};
use crate::inspect;
use crate::inspect::{PathCount, Report};
use crate::number;
use crate::number::{parse_unsigned, push_decimal};
use crate::record::{MapOptions, Rules};
use crate::selector;
use crate::selector::{Pattern, Selector};
use crate::text;
use crate::text::{begins_with, chars_of, join2, join3, join5, same};
use crate::xml;
use crate::xml::{ParseError, ParserOptions};

verus! {

pub const VERSION: &'static str = "0.1.0";

pub const USAGE: &'static str = "xmlcarve — stream giant XML files into JSONL by record element

USAGE:
    xmlcarve <COMMAND> [OPTIONS] <FILE>

COMMANDS:
    carve      Stream records matching a selector to JSONL
    inspect    Profile element structure and suggest a record selector

OPTIONS:
    -h, --help       Print help (or 'xmlcarve <COMMAND> --help')
    -V, --version    Print version
";

pub const CARVE_USAGE: &'static str = "Stream records matching a selector to JSONL, one line per record.

USAGE:
    xmlcarve carve [OPTIONS] --record <SELECTOR> <FILE>

ARGS:
    <FILE>    Input XML file, or '-' to read from stdin

OPTIONS:
    -r, --record <SELECTOR>    Record selector (repeatable). Forms:
                               'page' (any depth), 'feed/entry' (suffix),
                               '/root/items/item' (anchored), '*/row'
    -o, --output <FILE>        Write JSONL to a file instead of stdout
        --skip <N>             Skip the first N matching records
        --limit <N>            Stop after N records (stops reading early)
        --attr-prefix <S>      Attribute key prefix [default: @]
        --text-key <S>         Mixed-content text key [default: #text]
        --wrap                 Wrap each record as {\"<element>\": ...}
        --strip-namespaces     Strip 'ns:' prefixes and xmlns declarations
        --infer-types          Emit numeric/boolean-looking scalars as
                               JSON numbers and booleans
        --lenient              Pass unknown named entities (&nbsp;) through
        --stats                Print a summary line to stderr
    -h, --help                 Print help
";

pub const INSPECT_USAGE: &'static str = "Profile element structure and suggest a record selector.

USAGE:
    xmlcarve inspect [OPTIONS] <FILE>

ARGS:
    <FILE>    Input XML file, or '-' to read from stdin

OPTIONS:
        --limit <N>    Stop after scanning N elements (profile a giant
                       file from its first slice)
        --lenient      Pass unknown named entities (&nbsp;) through
    -h, --help         Print help
";

/// True of the flags that ask for help.
pub open spec fn is_help(arg: Seq<char>) -> bool {
    arg == "-h"@ || arg == "--help"@
}

/// True of an argument that begins like an option; a lone `-` does not.
pub open spec fn is_option(arg: Seq<char>) -> bool {
    "-"@.is_prefix_of(arg) && arg != "-"@
}

/// The number that a flag's value denotes, or the complaint about it.
pub open spec fn flag_number(flag: Seq<char>, value: Seq<char>) -> Result<int, Seq<char>> {
    match number::unsigned_value(value, 10, u64::MAX as int) {
        Some(n) => Ok(n),
        None => Err(flag + " expects a non-negative integer, got '"@ + value + "'"@),
    }
}

/// A `carve` invocation as far as it has been read.
#[verifier::ext_equal]
pub struct CarveOrder {
    pub file: Option<Seq<char>>,
    pub output: Option<Seq<char>>,
    pub plan: Plan,
    pub stats: bool,
}

/// A `carve` invocation of which nothing has been read.
pub open spec fn carve_defaults() -> CarveOrder {
    CarveOrder {
        file: None,
        output: None,
        plan: Plan {
            selectors: seq![],
            skip: 0,
            limit: None,
            rules: Rules {
                attr_prefix: "@"@,
                text_key: "#text"@,
                strip_namespaces: false,
                infer_types: false,
                wrap: false,
            },
            lenient: false,
        },
        stats: false,
    }
}

/// True of the flags of `carve` that take a value.
pub open spec fn carve_takes_value(flag: Seq<char>) -> bool {
    ||| flag == "-r"@
    ||| flag == "--record"@
    ||| flag == "-o"@
    ||| flag == "--output"@
    ||| flag == "--skip"@
    ||| flag == "--limit"@
    ||| flag == "--attr-prefix"@
    ||| flag == "--text-key"@
}

/// What a flag with its value makes of the invocation.
pub open spec fn carve_value(o: CarveOrder, flag: Seq<char>, value: Seq<char>) -> Result<
    CarveOrder,
    Seq<char>,
> {
    if flag == "-r"@ || flag == "--record"@ {
        match selector::parsed(value) {
            Ok(p) => Ok(
                CarveOrder { plan: Plan { selectors: o.plan.selectors.push(p), ..o.plan }, ..o },
            ),
            Err(message) => Err("--record: "@ + message),
        }
    } else if flag == "-o"@ || flag == "--output"@ {
        Ok(CarveOrder { output: Some(value), ..o })
    } else if flag == "--skip"@ {
        match flag_number(flag, value) {
            Ok(n) => Ok(CarveOrder { plan: Plan { skip: n, ..o.plan }, ..o }),
            Err(message) => Err(message),
        }
    } else if flag == "--limit"@ {
        match flag_number(flag, value) {
            Ok(n) => Ok(CarveOrder { plan: Plan { limit: Some(n), ..o.plan }, ..o }),
            Err(message) => Err(message),
        }
    } else if flag == "--attr-prefix"@ {
        Ok(
            CarveOrder {
                plan: Plan { rules: Rules { attr_prefix: value, ..o.plan.rules }, ..o.plan },
                ..o
            },
        )
    } else if value.len() == 0 {
        Err("--text-key must not be empty"@)
    } else {
        Ok(
            CarveOrder {
                plan: Plan { rules: Rules { text_key: value, ..o.plan.rules }, ..o.plan },
                ..o
            },
        )
    }
}

/// What a flag without a value makes of the invocation.
pub open spec fn carve_switch(o: CarveOrder, flag: Seq<char>) -> Option<CarveOrder> {
    let rules = o.plan.rules;
    if flag == "--wrap"@ {
        Some(CarveOrder { plan: Plan { rules: Rules { wrap: true, ..rules }, ..o.plan }, ..o })
    } else if flag == "--strip-namespaces"@ {
        Some(
            CarveOrder {
                plan: Plan { rules: Rules { strip_namespaces: true, ..rules }, ..o.plan },
                ..o
            },
        )
    } else if flag == "--infer-types"@ {
        Some(
            CarveOrder {
                plan: Plan { rules: Rules { infer_types: true, ..rules }, ..o.plan },
                ..o
            },
        )
    } else if flag == "--lenient"@ {
        Some(CarveOrder { plan: Plan { lenient: true, ..o.plan }, ..o })
    } else if flag == "--stats"@ {
        Some(CarveOrder { stats: true, ..o })
    } else {
        None
    }
}

/// The invocation behind the last argument; `None` when help is asked for.
pub open spec fn carve_order(o: CarveOrder, args: Seq<Seq<char>>) -> Result<
    Option<CarveOrder>,
    Seq<char>,
>
    decreases args.len(),
{
    if args.len() == 0 {
        Ok(Some(o))
    } else {
        let arg = args[0];
        if is_help(arg) {
            Ok(None)
        } else if carve_takes_value(arg) {
            if args.len() == 1 {
                Err(arg + " requires a value"@)
            } else {
                match carve_value(o, arg, args[1]) {
                    Err(message) => Err(message),
                    Ok(next) => carve_order(next, args.skip(2)),
                }
            }
        } else {
            match carve_switch(o, arg) {
                Some(next) => carve_order(next, args.skip(1)),
                None => if is_option(arg) {
                    Err("unknown option '"@ + arg + "'"@)
                } else if o.file is Some {
                    Err("unexpected extra argument '"@ + arg + "'"@)
                } else {
                    carve_order(CarveOrder { file: Some(arg), ..o }, args.skip(1))
                },
            }
        }
    }
}

/// The invocation that `args` make, if it is complete.
pub open spec fn carve_args(args: Seq<Seq<char>>) -> Result<Option<CarveOrder>, Seq<char>> {
    match carve_order(carve_defaults(), args) {
        Err(message) => Err(message),
        Ok(None) => Ok(None),
        Ok(Some(o)) => if o.file is None {
            Err("missing input file (use '-' for stdin)"@)
        } else if o.plan.selectors.len() == 0 {
            Err(
                "at least one --record selector is required (try 'xmlcarve inspect <FILE>' to find one)"@,
            )
        } else if o.plan.limit == Some(0int) {
            Err("--limit must be at least 1"@)
        } else {
            Ok(Some(o))
        },
    }
}

/// An `inspect` invocation as far as it has been read.
#[verifier::ext_equal]
pub struct InspectOrder {
    pub file: Option<Seq<char>>,
    pub limit: Option<int>,
    pub lenient: bool,
}

/// An `inspect` invocation of which nothing has been read.
pub open spec fn inspect_defaults() -> InspectOrder {
    InspectOrder { file: None, limit: None, lenient: false }
}

/// The invocation behind the last argument; `None` when help is asked for.
pub open spec fn inspect_order(o: InspectOrder, args: Seq<Seq<char>>) -> Result<
    Option<InspectOrder>,
    Seq<char>,
>
    decreases args.len(),
{
    if args.len() == 0 {
        Ok(Some(o))
    } else {
        let arg = args[0];
        if is_help(arg) {
            Ok(None)
        } else if arg == "--limit"@ {
            if args.len() == 1 {
                Err(arg + " requires a value"@)
            } else {
                match flag_number(arg, args[1]) {
                    Err(message) => Err(message),
                    Ok(n) => inspect_order(InspectOrder { limit: Some(n), ..o }, args.skip(2)),
                }
            }
        } else if arg == "--lenient"@ {
            inspect_order(InspectOrder { lenient: true, ..o }, args.skip(1))
        } else if is_option(arg) {
            Err("unknown option '"@ + arg + "'"@)
        } else if o.file is Some {
            Err("unexpected extra argument '"@ + arg + "'"@)
        } else {
            inspect_order(InspectOrder { file: Some(arg), ..o }, args.skip(1))
        }
    }
}

/// The invocation that `args` make, if it is complete.
pub open spec fn inspect_args(args: Seq<Seq<char>>) -> Result<Option<InspectOrder>, Seq<char>> {
    match inspect_order(inspect_defaults(), args) {
        Err(message) => Err(message),
        Ok(None) => Ok(None),
        Ok(Some(o)) => if o.limit == Some(0int) {
            Err("--limit must be at least 1"@)
        } else if o.file is None {
            Err("missing input file (use '-' for stdin)"@)
        } else {
            Ok(Some(o))
        },
    }
}

/// Parsed `carve` invocation.
#[derive(Debug, Clone, PartialEq)]
pub struct CarveCmd {
    pub file: String,
    pub output: Option<String>,
    pub opts: CarveOptions,
    pub stats: bool,
}

impl View for CarveCmd {
    type V = CarveOrder;

    open spec fn view(&self) -> CarveOrder {
        CarveOrder {
            file: Some(self.file@),
            output: text::opt_view(self.output),
            plan: self.opts@,
            stats: self.stats,
        }
    }
}

/// Parsed `inspect` invocation.
#[derive(Debug, Clone, PartialEq)]
pub struct InspectCmd {
    pub file: String,
    pub limit: Option<u64>,
    pub lenient: bool,
}

impl View for InspectCmd {
    type V = InspectOrder;

    open spec fn view(&self) -> InspectOrder {
        InspectOrder {
            file: Some(self.file@),
            limit: match self.limit {
                Some(n) => Some(n as int),
                None => None,
            },
            lenient: self.lenient,
        }
    }
}

/// The outcome of parsing `carve` arguments, over mathematical values.
pub open spec fn carve_outcome(r: Result<Option<CarveCmd>, String>) -> Result<
    Option<CarveOrder>,
    Seq<char>,
> {
    match r {
        Ok(Some(cmd)) => Ok(Some(cmd@)),
        Ok(None) => Ok(None),
        Err(message) => Err(message@),
    }
}

/// The outcome of parsing `inspect` arguments, over mathematical values.
pub open spec fn inspect_outcome(r: Result<Option<InspectCmd>, String>) -> Result<
    Option<InspectOrder>,
    Seq<char>,
> {
    match r {
        Ok(Some(cmd)) => Ok(Some(cmd@)),
        Ok(None) => Ok(None),
        Err(message) => Err(message@),
    }
}

fn asks_for_help(arg: &str) -> (r: bool)
    ensures
        r == is_help(arg@),
{
    same(arg, "-h") || same(arg, "--help")
}

fn looks_like_option(arg: &str) -> (r: bool)
    ensures
        r == is_option(arg@),
{
    begins_with(arg, "-") && !same(arg, "-")
}

/// The value behind the flag at `i`.
fn value_of<'a>(args: &'a [String], i: usize) -> (r: Result<&'a String, String>)
    requires
        i < args@.len(),
    ensures
        match r {
            Ok(value) => i + 1 < args@.len() && *value == args@[i + 1],
            Err(message) => i + 1 == args@.len() && message@ == args@[i as int]@
                + " requires a value"@,
        },
{
    assert(i < args.len());
    if i + 1 < args.len() {
        Ok(&args[i + 1])
    } else {
        Err(join2(&args[i], " requires a value"))
    }
}

/// The number that a flag's value denotes.
fn number_of(flag: &str, value: &str) -> (r: Result<u64, String>)
    ensures
        match r {
            Ok(n) => flag_number(flag@, value@) == Ok::<int, Seq<char>>(n as int),
            Err(message) => flag_number(flag@, value@) == Err::<int, Seq<char>>(message@),
        },
{
    let chars = chars_of(value);
    match parse_unsigned(&chars, 10, u64::MAX) {
        Some(n) => Ok(n),
        None => Err(
            join3(&join2(flag, " expects a non-negative integer, got '"), value, "'"),
        ),
    }
}

/// A `carve` invocation while its arguments are read.
struct Reading {
    file: Option<String>,
    output: Option<String>,
    opts: CarveOptions,
    stats: bool,
}

impl View for Reading {
    type V = CarveOrder;

    closed spec fn view(&self) -> CarveOrder {
        CarveOrder {
            file: text::opt_view(self.file),
            output: text::opt_view(self.output),
            plan: self.opts@,
            stats: self.stats,
        }
    }
}

impl Reading {
    fn new() -> (r: Self)
        ensures
            r@ == carve_defaults(),
    {
        let r = Reading {
            file: None,
            output: None,
            opts: CarveOptions {
                selectors: Vec::new(),
                skip: 0,
                limit: None,
                map: MapOptions::default(),
                parser: ParserOptions { lenient_entities: false },
            },
            stats: false,
        };
        assert(r@.plan.selectors =~= seq![]);
        r
    }

    fn takes_value(flag: &str) -> (r: bool)
        ensures
            r == carve_takes_value(flag@),
    {
        same(flag, "-r") || same(flag, "--record") || same(flag, "-o") || same(flag, "--output")
            || same(flag, "--skip") || same(flag, "--limit") || same(flag, "--attr-prefix") || same(
            flag,
            "--text-key",
        )
    }

    /// Takes a flag with its value in.
    fn value(&mut self, flag: &str, value: &str) -> (r: Result<(), String>)
        ensures
            match r {
                Ok(_) => carve_value(old(self)@, flag@, value@) == Ok::<CarveOrder, Seq<char>>(
                    final(self)@,
                ),
                Err(message) => carve_value(old(self)@, flag@, value@) == Err::<
                    CarveOrder,
                    Seq<char>,
                >(message@),
            },
    {
        let ghost before = self@;
        if same(flag, "-r") || same(flag, "--record") {
            match Selector::parse(value) {
                Ok(selector) => {
                    self.opts.selectors.push(selector);
                    assert(self@.plan.selectors =~= before.plan.selectors.push(selector@));
                },
                Err(message) => return Err(join2("--record: ", &message)),
            }
        } else if same(flag, "-o") || same(flag, "--output") {
            self.output = Some(value.to_owned());
        } else if same(flag, "--skip") {
            match number_of(flag, value) {
                Ok(n) => self.opts.skip = n,
                Err(message) => return Err(message),
            }
        } else if same(flag, "--limit") {
            match number_of(flag, value) {
                Ok(n) => self.opts.limit = Some(n),
                Err(message) => return Err(message),
            }
        } else if same(flag, "--attr-prefix") {
            self.opts.map.attr_prefix = value.to_owned();
        } else {
            if value.is_empty() {
                return Err("--text-key must not be empty".to_owned());
            }
            self.opts.map.text_key = value.to_owned();
        }
        Ok(())
    }

    /// Takes a flag without a value in. Returns false if there is no such.
    fn switch(&mut self, flag: &str) -> (r: bool)
        ensures
            carve_switch(old(self)@, flag@) == (if r {
                Some(final(self)@)
            } else {
                None
            }),
            !r ==> *final(self) == *old(self),
    {
        if same(flag, "--wrap") {
            self.opts.map.wrap = true;
        } else if same(flag, "--strip-namespaces") {
            self.opts.map.strip_namespaces = true;
        } else if same(flag, "--infer-types") {
            self.opts.map.infer_types = true;
        } else if same(flag, "--lenient") {
            self.opts.parser.lenient_entities = true;
        } else if same(flag, "--stats") {
            self.stats = true;
        } else {
            return false;
        }
        true
    }
}

/// Parse `carve` arguments. `Ok(None)` means `--help` was requested.
pub fn parse_carve_args(args: &[String]) -> (r: Result<Option<CarveCmd>, String>)
    ensures
        carve_outcome(r) == carve_args(text::views(args@)),
{
    let ghost all = text::views(args@);
    let mut reading = Reading::new();
    let mut i: usize = 0;
    assert(all.skip(0) =~= all);
    while i < args.len()
        invariant
            i <= args@.len(),
            all == text::views(args@),
            carve_order(carve_defaults(), all) == carve_order(reading@, all.skip(i as int)),
        decreases args@.len() - i,
    {
        let arg = &args[i];
        assert(all.skip(i as int)[0] == arg@);
        assert(all.skip(i as int).skip(1) =~= all.skip(i + 1));
        if asks_for_help(arg) {
            return Ok(None);
        } else if Reading::takes_value(arg) {
            let value = match value_of(args, i) {
                Ok(value) => value,
                Err(message) => return Err(message),
            };
            assert(all.skip(i as int)[1] == value@);
            assert(all.skip(i as int).skip(2) =~= all.skip(i + 2));
            match reading.value(arg, value) {
                Ok(_) => {},
                Err(message) => return Err(message),
            }
            i = i + 2;
        } else if reading.switch(arg) {
            i = i + 1;
        } else if looks_like_option(arg) {
            return Err(join3("unknown option '", arg, "'"));
        } else if reading.file.is_some() {
            return Err(join3("unexpected extra argument '", arg, "'"));
        } else {
            reading.file = Some(arg.clone());
            i = i + 1;
        }
    }
    assert(all.skip(i as int) =~= seq![]);
    let file = match reading.file {
        Some(file) => file,
        None => return Err("missing input file (use '-' for stdin)".to_owned()),
    };
    if reading.opts.selectors.len() == 0 {
        return Err(
            "at least one --record selector is required (try 'xmlcarve inspect <FILE>' to find one)".to_owned(),
        );
    }
    if let Some(0) = reading.opts.limit {
        return Err("--limit must be at least 1".to_owned());
    }
    Ok(
        Some(
            CarveCmd {
                file,
                output: reading.output,
                opts: reading.opts,
                stats: reading.stats,
            },
        ),
    )
}

/// Parse `inspect` arguments. `Ok(None)` means `--help` was requested.
pub fn parse_inspect_args(args: &[String]) -> (r: Result<Option<InspectCmd>, String>)
    ensures
        inspect_outcome(r) == inspect_args(text::views(args@)),
{
    let ghost all = text::views(args@);
    let mut file: Option<String> = None;
    let mut limit: Option<u64> = None;
    let mut lenient = false;
    let mut i: usize = 0;
    assert(all.skip(0) =~= all);
    while i < args.len()
        invariant
            i <= args@.len(),
            all == text::views(args@),
            inspect_order(inspect_defaults(), all) == inspect_order(
                InspectOrder {
                    file: text::opt_view(file),
                    limit: match limit {
                        Some(n) => Some(n as int),
                        None => None,
                    },
                    lenient,
                },
                all.skip(i as int),
            ),
        decreases args@.len() - i,
    {
        let arg = &args[i];
        assert(all.skip(i as int)[0] == arg@);
        assert(all.skip(i as int).skip(1) =~= all.skip(i + 1));
        if asks_for_help(arg) {
            return Ok(None);
        } else if same(arg, "--limit") {
            let value = match value_of(args, i) {
                Ok(value) => value,
                Err(message) => return Err(message),
            };
            assert(all.skip(i as int)[1] == value@);
            assert(all.skip(i as int).skip(2) =~= all.skip(i + 2));
            match number_of(arg, value) {
                Ok(n) => limit = Some(n),
                Err(message) => return Err(message),
            }
            i = i + 2;
        } else if same(arg, "--lenient") {
            lenient = true;
            i = i + 1;
        } else if looks_like_option(arg) {
            return Err(join3("unknown option '", arg, "'"));
        } else if file.is_some() {
            return Err(join3("unexpected extra argument '", arg, "'"));
        } else {
            file = Some(arg.clone());
            i = i + 1;
        }
    }
    assert(all.skip(i as int) =~= seq![]);
    if let Some(0) = limit {
        return Err("--limit must be at least 1".to_owned());
    }
    match file {
        Some(file) => Ok(Some(InspectCmd { file, limit, lenient })),
        None => Err("missing input file (use '-' for stdin)".to_owned()),
    }
}

/// What a command line asks for.
#[verifier::ext_equal]
pub enum Request {
    /// Print the text and succeed.
    Print(Seq<char>),
    /// Complain with the text: a usage error.
    Refuse(Seq<char>),
    Carve(CarveOrder),
    Inspect(InspectOrder),
}

/// The complaint about a command line.
pub open spec fn usage_complaint(message: Seq<char>, help: Seq<char>) -> Seq<char> {
    "xmlcarve: error: "@ + message + "\nRun '"@ + help + "' for usage.\n"@
}

/// What the arguments behind the program's name ask for.
pub open spec fn request(args: Seq<Seq<char>>) -> Request {
    if args.len() == 0 {
        Request::Refuse(USAGE@)
    } else if is_help(args[0]) {
        Request::Print(USAGE@)
    } else if args[0] == "-V"@ || args[0] == "--version"@ {
        Request::Print("xmlcarve "@ + VERSION@ + "\n"@)
    } else if args[0] == "carve"@ {
        match carve_args(args.skip(1)) {
            Ok(Some(o)) => Request::Carve(o),
            Ok(None) => Request::Print(CARVE_USAGE@),
            Err(message) => Request::Refuse(usage_complaint(message, "xmlcarve carve --help"@)),
        }
    } else if args[0] == "inspect"@ {
        match inspect_args(args.skip(1)) {
            Ok(Some(o)) => Request::Inspect(o),
            Ok(None) => Request::Print(INSPECT_USAGE@),
            Err(message) => Request::Refuse(usage_complaint(message, "xmlcarve inspect --help"@)),
        }
    } else {
        Request::Refuse(
            usage_complaint("unknown command '"@ + args[0] + "'"@, "xmlcarve --help"@),
        )
    }
}

/// What a command line asks for.
#[derive(Debug, Clone, PartialEq)]
pub enum Command {
    /// Print the text on stdout and exit with 0.
    Print(String),
    /// Print the text on stderr and exit with 2.
    Refuse(String),
    Carve(CarveCmd),
    Inspect(InspectCmd),
}

impl View for Command {
    type V = Request;

    open spec fn view(&self) -> Request {
        match *self {
            Command::Print(s) => Request::Print(s@),
            Command::Refuse(s) => Request::Refuse(s@),
            Command::Carve(cmd) => Request::Carve(cmd@),
            Command::Inspect(cmd) => Request::Inspect(cmd@),
        }
    }
}

fn usage_error(message: &str, help: &str) -> (r: String)
    ensures
        r@ == usage_complaint(message@, help@),
{
    join5("xmlcarve: error: ", message, "\nRun '", help, "' for usage.\n")
}

/// What the arguments behind the program's name ask for.
pub fn dispatch(args: &[String]) -> (r: Command)
    ensures
        r@ == request(text::views(args@)),
{
    let ghost all = text::views(args@);
    if args.len() == 0 {
        return Command::Refuse(USAGE.to_owned());
    }
    let first = &args[0];
    let rest = vstd::slice::slice_subrange(args, 1, args.len());
    assert(text::views(rest@) =~= all.skip(1));
    if asks_for_help(first) {
        Command::Print(USAGE.to_owned())
    } else if same(first, "-V") || same(first, "--version") {
        Command::Print(join3("xmlcarve ", VERSION, "\n"))
    } else if same(first, "carve") {
        match parse_carve_args(rest) {
            Ok(Some(cmd)) => Command::Carve(cmd),
            Ok(None) => Command::Print(CARVE_USAGE.to_owned()),
            Err(message) => Command::Refuse(usage_error(&message, "xmlcarve carve --help")),
        }
    } else if same(first, "inspect") {
        match parse_inspect_args(rest) {
            Ok(Some(cmd)) => Command::Inspect(cmd),
            Ok(None) => Command::Print(INSPECT_USAGE.to_owned()),
            Err(message) => Command::Refuse(usage_error(&message, "xmlcarve inspect --help")),
        }
    } else {
        Command::Refuse(
            usage_error(&join3("unknown command '", first, "'"), "xmlcarve --help"),
        )
    }
}

/// What a run leaves behind: an exit code (0 success, 1 runtime failure) and
/// what to print last on stdout and stderr.
#[derive(Debug, Clone, PartialEq)]
pub struct Ending {
    pub code: u8,
    pub stdout: String,
    pub stderr: String,
}

impl Ending {
    /// The ending has these parts.
    pub open spec fn says(self, code: int, stdout: Seq<char>, stderr: Seq<char>) -> bool {
        self.code == code && self.stdout@ == stdout && self.stderr@ == stderr
    }
}

/// A complaint about a file.
pub open spec fn file_complaint(file: Seq<char>, reason: Seq<char>) -> Seq<char> {
    "xmlcarve: "@ + file + ": "@ + reason + "\n"@
}

/// The summary line of a carve.
pub open spec fn stats_line(stats: CarveStats) -> Seq<char> {
    "xmlcarve: wrote "@ + number::decimal(stats.records_written as nat) + " record(s) ("@
        + number::decimal(stats.records_matched as nat) + " matched, "@ + number::decimal(
        (stats.records_matched - stats.records_written) as nat,
    ) + " skipped), "@ + number::decimal(stats.bytes_read as nat) + " bytes read\n"@
}

/// The ending of a run that a file cut short.
pub fn file_failure(file: &str, reason: &str) -> (r: Ending)
    ensures
        r.says(1, ""@, file_complaint(file@, reason@)),
{
    Ending {
        code: 1,
        stdout: "".to_owned(),
        stderr: join5("xmlcarve: ", file, ": ", reason, "\n"),
    }
}

fn show_stats(stats: &CarveStats) -> (r: String)
    requires
        stats.records_written <= stats.records_matched,
    ensures
        r@ == stats_line(*stats),
{
    let mut r = "xmlcarve: wrote ".to_owned();
    push_decimal(&mut r, stats.records_written);
    r.append(" record(s) (");
    push_decimal(&mut r, stats.records_matched);
    r.append(" matched, ");
    push_decimal(&mut r, stats.records_matched - stats.records_written);
    r.append(" skipped), ");
    push_decimal(&mut r, stats.bytes_read);
    r.append(" bytes read\n");
    r
}

/// The ending of a carve. When downstream closed the pipe (e.g. `| head`),
/// that is a consumer decision, not a failure.
pub fn finish_carve(cmd: &CarveCmd, result: &Result<CarveStats, CarveError>) -> (r: Ending)
    requires
        *result matches Ok(stats) ==> stats.records_written <= stats.records_matched,
    ensures
        match *result {
            Ok(stats) => r.says(
                0,
                ""@,
                if cmd.stats {
                    stats_line(stats)
                } else {
                    ""@
                },
            ),
            Err(e) => if e matches CarveError::Io(output) && output.broken_pipe {
                r.says(0, ""@, ""@)
            } else {
                r.says(1, ""@, file_complaint(cmd.file@, carve::shown_error(e)))
            },
        },
{
    match result {
        Ok(stats) => Ending {
            code: 0,
            stdout: "".to_owned(),
            stderr: if cmd.stats {
                show_stats(stats)
            } else {
                "".to_owned()
            },
        },
        Err(e) => {
            let broken_pipe = match e {
                CarveError::Io(output) => output.broken_pipe,
                CarveError::Parse(_) => false,
            };
            if broken_pipe {
                Ending { code: 0, stdout: "".to_owned(), stderr: "".to_owned() }
            } else {
                file_failure(&cmd.file, &e.to_string())
            }
        },
    }
}

/// `n` blanks.
pub open spec fn blanks(n: int) -> Seq<char> {
    Seq::new(
        if n > 0 {
            n as nat
        } else {
            0
        },
        |i: int| ' ',
    )
}

/// `s` at the right end of a column of ten.
pub open spec fn in_column(s: Seq<char>) -> Seq<char> {
    blanks(10 - s.len()) + s
}

/// One line of the table of paths.
pub open spec fn table_line(count: Seq<char>, with_attrs: Seq<char>, path: Seq<char>) -> Seq<char> {
    in_column(count) + "  "@ + in_column(with_attrs) + "  "@ + path + "\n"@
}

/// The lines of the table of paths.
pub open spec fn table(tallies: Seq<inspect::Tally>) -> Seq<char>
    decreases tallies.len(),
{
    if tallies.len() == 0 {
        table_line("count"@, "w/attrs"@, "path"@)
    } else {
        let t = tallies.last();
        table(tallies.drop_last()) + table_line(
            number::decimal(t.count as nat),
            number::decimal(t.with_attrs as nat),
            t.path,
        )
    }
}

/// The printed form of a report.
pub open spec fn report_text(report: Report) -> Seq<char> {
    table(inspect::tallies(report.paths@)) + "\n"@ + number::decimal(report.elements_seen as nat)
        + " element(s) scanned, "@ + number::decimal(report.bytes_read as nat) + " bytes read"@ + (
    if report.truncated {
        " (scan truncated by --limit)"@
    } else {
        ""@
    }) + "\n"@ + (match report.suggestion {
        Some(s) => "suggested --record: "@ + s@ + "\n"@,
        None => "no repeating record element found\n"@,
    })
}

/// Appends `s` at the right end of a column of ten.
fn push_column(out: &mut String, s: &str)
    ensures
        final(out)@ == old(out)@ + in_column(s@),
{
    let width = chars_of(s).len();
    let mut n: usize = width;
    assert(old(out)@ + blanks(0) =~= old(out)@);
    while n < 10
        invariant
            width == s@.len(),
            width <= n,
            n <= 10 || n == width,
            out@ == old(out)@ + blanks(n - width),
        decreases 10 - n,
    {
        out.push(' ');
        n = n + 1;
        assert(out@ =~= old(out)@ + blanks(n - width));
    }
    assert(blanks(n - width) =~= blanks(10 - width));
    out.append(s);
    assert(out@ =~= old(out)@ + in_column(s@));
}

/// Appends one line of the table of paths.
fn push_line(out: &mut String, count: &str, with_attrs: &str, path: &str)
    ensures
        final(out)@ == old(out)@ + table_line(count@, with_attrs@, path@),
{
    push_column(out, count);
    out.append("  ");
    push_column(out, with_attrs);
    out.append("  ");
    out.append(path);
    out.append("\n");
    assert(out@ =~= old(out)@ + table_line(count@, with_attrs@, path@));
}

/// `n` in decimal.
fn show_number(n: u64) -> (r: String)
    ensures
        r@ == number::decimal(n as nat),
{
    let mut r = String::new();
    push_decimal(&mut r, n);
    assert(r@ =~= number::decimal(n as nat));
    r
}

/// The table of paths.
fn show_table(paths: &Vec<PathCount>) -> (r: String)
    ensures
        r@ == table(inspect::tallies(paths@)),
{
    let ghost all = inspect::tallies(paths@);
    let mut out = String::new();
    push_line(&mut out, "count", "w/attrs", "path");
    let mut i: usize = 0;
    assert(out@ =~= table(all.take(0)));
    while i < paths.len()
        invariant
            i <= paths@.len(),
            all == inspect::tallies(paths@),
            out@ == table(all.take(i as int)),
        decreases paths@.len() - i,
    {
        let pc = &paths[i];
        assert(all.take(i + 1).drop_last() =~= all.take(i as int));
        assert(all.take(i + 1).last() == pc@);
        push_line(&mut out, &show_number(pc.count), &show_number(pc.with_attrs), &pc.path);
        i = i + 1;
    }
    assert(all.take(i as int) =~= all);
    out
}

/// The printed form of a report.
pub fn show_report(report: &Report) -> (r: String)
    ensures
        r@ == report_text(*report),
{
    let mut out = show_table(&report.paths);
    out.append("\n");
    push_decimal(&mut out, report.elements_seen);
    out.append(" element(s) scanned, ");
    push_decimal(&mut out, report.bytes_read);
    out.append(" bytes read");
    out.append(
        if report.truncated {
            " (scan truncated by --limit)"
        } else {
            ""
        },
    );
    out.append("\n");
    let last = match &report.suggestion {
        Some(s) => join3("suggested --record: ", s, "\n"),
        None => "no repeating record element found\n".to_owned(),
    };
    out.append(&last);
    out
}

/// The ending of a profile.
pub fn finish_inspect(cmd: &InspectCmd, result: &Result<Report, ParseError>) -> (r: Ending)
    ensures
        match *result {
            Ok(report) => r.says(0, report_text(report), ""@),
            Err(e) => r.says(1, ""@, file_complaint(cmd.file@, xml::shown_failure(e@))),
        },
{
    match result {
        Ok(report) => Ending { code: 0, stdout: show_report(report), stderr: "".to_owned() },
        Err(e) => file_failure(&cmd.file, &e.to_string()),
    }
}

/// What holds of a `carve` invocation at every argument.
spec fn steady(o: CarveOrder) -> bool {
    &&& o.plan.skip >= 0
    &&& o.plan.limit matches Some(n) ==> n >= 0
    &&& o.plan.rules.text_key.len() > 0
    &&& forall|i: int|
        0 <= i < o.plan.selectors.len() ==> exists|source: Seq<char>|
            selector::parsed(source) == Ok::<Pattern, Seq<char>>(#[trigger] o.plan.selectors[i])
}

proof fn lemma_flag_number(flag: Seq<char>, value: Seq<char>)
    ensures
        flag_number(flag, value) matches Ok(n) ==> 0 <= n <= u64::MAX,
{
    let digits = if value.len() > 0 && value[0] == '+' {
        value.skip(1)
    } else {
        value
    };
    number::lemma_value_is_natural(digits, 10);
}

proof fn lemma_steady_value(o: CarveOrder, flag: Seq<char>, value: Seq<char>)
    requires
        steady(o),
    ensures
        carve_value(o, flag, value) matches Ok(next) ==> steady(next),
{
    lemma_flag_number(flag, value);
    if let Ok(next) = carve_value(o, flag, value) {
        if flag == "-r"@ || flag == "--record"@ {
            let all = next.plan.selectors;
            assert forall|i: int| 0 <= i < all.len() implies exists|source: Seq<char>|
                selector::parsed(source) == Ok::<Pattern, Seq<char>>(#[trigger] all[i]) by {
                if i < o.plan.selectors.len() {
                    assert(all[i] == o.plan.selectors[i]);
                } else {
                    assert(selector::parsed(value) == Ok::<Pattern, Seq<char>>(all[i]));
                }
            }
        }
    }
}

proof fn lemma_steady(o: CarveOrder, args: Seq<Seq<char>>)
    requires
        steady(o),
    ensures
        carve_order(o, args) matches Ok(Some(last)) ==> steady(last),
    decreases args.len(),
{
    if args.len() > 0 {
        let arg = args[0];
        if is_help(arg) {
        } else if carve_takes_value(arg) {
            if args.len() > 1 {
                lemma_steady_value(o, arg, args[1]);
                if let Ok(next) = carve_value(o, arg, args[1]) {
                    lemma_steady(next, args.skip(2));
                }
            }
        } else {
            match carve_switch(o, arg) {
                Some(next) => lemma_steady(next, args.skip(1)),
                None => lemma_steady(CarveOrder { file: Some(arg), ..o }, args.skip(1)),
            }
        }
    }
}

/// A `carve` invocation that is accepted can be run: it names a file, at least
/// one selector, all of them well-formed, a limit of at least one, if any, and
/// a text key that is not empty.
pub proof fn law_accepted_carves_are_complete(args: Seq<Seq<char>>)
    ensures
        carve_args(args) matches Ok(Some(o)) ==> {
            &&& o.file is Some
            &&& o.plan.selectors.len() > 0
            &&& forall|i: int|
                0 <= i < o.plan.selectors.len() ==> exists|source: Seq<char>|
                    selector::parsed(source) == Ok::<Pattern, Seq<char>>(
                        #[trigger] o.plan.selectors[i],
                    )
            &&& o.plan.skip >= 0
            &&& o.plan.limit matches Some(n) ==> n >= 1
            &&& o.plan.rules.text_key.len() > 0
        },
{
    reveal_strlit("#text");
    assert(steady(carve_defaults()));
    lemma_steady(carve_defaults(), args);
}

/// Arguments are read from left to right: what stands behind a readable list
/// is read as if the list had led up to it.
pub proof fn law_arguments_are_read_in_order(
    o: CarveOrder,
    before: Seq<Seq<char>>,
    after: Seq<Seq<char>>,
)
    ensures
        carve_order(o, before) matches Ok(Some(next)) ==> carve_order(o, before + after)
            == carve_order(next, after),
    decreases before.len(),
{
    let all = before + after;
    if before.len() == 0 {
        assert(all =~= after);
    } else {
        assert(all[0] == before[0]);
        assert(all.skip(1) =~= before.skip(1) + after);
        let arg = before[0];
        if is_help(arg) {
        } else if carve_takes_value(arg) {
            if before.len() > 1 {
                assert(all[1] == before[1]);
                assert(all.skip(2) =~= before.skip(2) + after);
                if let Ok(next) = carve_value(o, arg, before[1]) {
                    law_arguments_are_read_in_order(next, before.skip(2), after);
                }
            }
        } else {
            match carve_switch(o, arg) {
                Some(next) => law_arguments_are_read_in_order(next, before.skip(1), after),
                None => law_arguments_are_read_in_order(
                    CarveOrder { file: Some(arg), ..o },
                    before.skip(1),
                    after,
                ),
            }
        }
    }
}

/// Help wins: behind a readable list it is given whatever is missing so far
/// and whatever follows.
pub proof fn law_help_short_circuits(
    before: Seq<Seq<char>>,
    help: Seq<char>,
    after: Seq<Seq<char>>,
)
    requires
        is_help(help),
        carve_order(carve_defaults(), before) matches Ok(Some(_)),
    ensures
        carve_args(before + (seq![help] + after)) == Ok::<Option<CarveOrder>, Seq<char>>(None),
{
    law_arguments_are_read_in_order(carve_defaults(), before, seq![help] + after);
    assert((seq![help] + after)[0] == help);
}

proof fn lemma_inspect_limit(o: InspectOrder, args: Seq<Seq<char>>)
    requires
        o.limit matches Some(n) ==> n >= 0,
    ensures
        inspect_order(o, args) matches Ok(Some(last)) ==> (last.limit matches Some(n) ==> n >= 0),
    decreases args.len(),
{
    if args.len() > 0 {
        let arg = args[0];
        if is_help(arg) {
        } else if arg == "--limit"@ {
            if args.len() > 1 {
                lemma_flag_number(arg, args[1]);
                if let Ok(n) = flag_number(arg, args[1]) {
                    lemma_inspect_limit(InspectOrder { limit: Some(n), ..o }, args.skip(2));
                }
            }
        } else if arg == "--lenient"@ {
            lemma_inspect_limit(InspectOrder { lenient: true, ..o }, args.skip(1));
        } else {
            lemma_inspect_limit(InspectOrder { file: Some(arg), ..o }, args.skip(1));
        }
    }
}

/// An `inspect` invocation that is accepted can be run: it names a file, and a
/// limit of at least one, if any.
pub proof fn law_accepted_inspects_are_complete(args: Seq<Seq<char>>)
    ensures
        inspect_args(args) matches Ok(Some(o)) ==> o.file is Some && (o.limit matches Some(n) ==> n
            >= 1),
{
    lemma_inspect_limit(inspect_defaults(), args);
}

/// A column holds its text at the right end, behind blanks, and is ten wide,
/// or as wide as a longer text.
pub proof fn law_columns_are_right_aligned(s: Seq<char>)
    ensures
        ({
            let column = in_column(s);
            let n = column.len() - s.len();
            &&& column.len() >= 10
            &&& s.len() >= 10 ==> n == 0
            &&& s.len() < 10 ==> column.len() == 10
            &&& column.skip(n) == s
            &&& forall|i: int| 0 <= i < n ==> #[trigger] column[i] == ' '
        }),
{
    let column = in_column(s);
    let n = column.len() - s.len();
    assert(column.skip(n) =~= s);
}

/// A report has a line for each path: its count, how often it had attributes,
/// and the path itself, in the order of the report.
pub proof fn law_reports_list_every_path(tallies: Seq<inspect::Tally>, i: int)
    requires
        0 <= i < tallies.len(),
        tallies[i].count >= 0,
        tallies[i].with_attrs >= 0,
    ensures
        ({
            let t = tallies[i];
            table(tallies) == table(tallies.take(i)) + in_column(number::decimal(t.count as nat))
                + seq![' ', ' '] + in_column(number::decimal(t.with_attrs as nat)) + seq![' ', ' ']
                + t.path + seq!['\n'] + table_behind(tallies, i + 1)
        }),
    decreases tallies.len(),
{
    reveal_strlit("  ");
    reveal_strlit("\n");
    assert("  "@ =~= seq![' ', ' ']);
    assert("\n"@ =~= seq!['\n']);
    let init = tallies.drop_last();
    if i == tallies.len() - 1 {
        assert(tallies.take(i) =~= init);
        assert(table_behind(tallies, i + 1) =~= seq![]);
        assert(table(tallies) =~= table(tallies.take(i)) + table_line(
            number::decimal(tallies[i].count as nat),
            number::decimal(tallies[i].with_attrs as nat),
            tallies[i].path,
        ) + table_behind(tallies, i + 1));
    } else {
        law_reports_list_every_path(init, i);
        assert(init.take(i) =~= tallies.take(i));
        assert(init[i] == tallies[i]);
    }
}

/// The lines behind the first `i`.
pub open spec fn table_behind(tallies: Seq<inspect::Tally>, i: int) -> Seq<char>
    decreases tallies.len(),
{
    if i < 0 || i >= tallies.len() {
        seq![]
    } else {
        table_behind(tallies.drop_last(), i) + table_line(
            number::decimal(tallies.last().count as nat),
            number::decimal(tallies.last().with_attrs as nat),
            tallies.last().path,
        )
    }
}

} // verus!
