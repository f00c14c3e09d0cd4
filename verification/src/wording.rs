//! How an invocation is worded, and that it is understood.
//!
//! A [`Choice`] is one thing that a command line asks for; [`worded`] gives
//! the arguments that ask for it. The laws say what a list of choices comes to:
//! of each setting what was chosen last, of the selectors all.

use vstd::prelude::*;

use crate::carve::Plan;
use crate::cli;
use crate::cli::{CarveOrder, InspectOrder, Request};
use crate::number;
use crate::reading;
use crate::record::Rules;
use crate::selector;
use crate::selector::Pattern;

verus! {

/// One thing that a command line asks for.
pub enum Choice {
    Record(Pattern),
    Output(Seq<char>),
    Skip(nat),
    Limit(nat),
    AttrPrefix(Seq<char>),
    TextKey(Seq<char>),
    Wrap,
    StripNamespaces,
    InferTypes,
    Lenient,
    Stats,
    File(Seq<char>),
}

/// The arguments that ask for it; two flags have a short form.
pub open spec fn worded(c: Choice, short: bool) -> Seq<Seq<char>> {
    match c {
        Choice::Record(p) => seq![
            if short {
                "-r"@
            } else {
                "--record"@
            },
            p.source,
        ],
        Choice::Output(file) => seq![
            if short {
                "-o"@
            } else {
                "--output"@
            },
            file,
        ],
        Choice::Skip(n) => seq!["--skip"@, number::decimal(n)],
        Choice::Limit(n) => seq!["--limit"@, number::decimal(n)],
        Choice::AttrPrefix(s) => seq!["--attr-prefix"@, s],
        Choice::TextKey(s) => seq!["--text-key"@, s],
        Choice::Wrap => seq!["--wrap"@],
        Choice::StripNamespaces => seq!["--strip-namespaces"@],
        Choice::InferTypes => seq!["--infer-types"@],
        Choice::Lenient => seq!["--lenient"@],
        Choice::Stats => seq!["--stats"@],
        Choice::File(file) => seq![file],
    }
}

/// The arguments that ask for all of them, in their order.
pub open spec fn all_worded(list: Seq<Choice>, short: bool) -> Seq<Seq<char>>
    decreases list.len(),
{
    if list.len() == 0 {
        seq![]
    } else {
        all_worded(list.drop_last(), short) + worded(list.last(), short)
    }
}

/// True of a choice that can be made: a selector is written as it is, a number
/// fits in 64 bits, a text key is not empty, and a file is no option.
pub open spec fn can_be_made(c: Choice) -> bool {
    match c {
        Choice::Record(p) => {
            &&& selector::writable(p.segments)
            &&& p.anchored ==> exists|i: int|
                0 <= i < p.segments.len() && (#[trigger] p.segments[i]) is Some
            &&& p.source == if p.anchored {
                seq!['/'] + selector::segments_text(p.segments)
            } else {
                selector::segments_text(p.segments)
            }
        },
        Choice::Skip(n) => n <= u64::MAX,
        Choice::Limit(n) => n <= u64::MAX,
        Choice::TextKey(s) => s.len() > 0,
        Choice::File(file) => file == seq!['-'] || file.len() == 0 || file[0] != '-',
        _ => true,
    }
}

/// What the last choice that `pick` takes says.
pub open spec fn last_of<T>(list: Seq<Choice>, pick: spec_fn(Choice) -> Option<T>) -> Option<T>
    decreases list.len(),
{
    if list.len() == 0 {
        None
    } else if pick(list.last()) is Some {
        pick(list.last())
    } else {
        last_of(list.drop_last(), pick)
    }
}

/// What the last choice that `pick` takes says, or else `other`.
pub open spec fn last_or<T>(list: Seq<Choice>, pick: spec_fn(Choice) -> Option<T>, other: T) -> T {
    match last_of(list, pick) {
        Some(x) => x,
        None => other,
    }
}

/// The selectors among the choices, in their order.
pub open spec fn selectors_of(list: Seq<Choice>) -> Seq<Pattern>
    decreases list.len(),
{
    if list.len() == 0 {
        seq![]
    } else {
        match list.last() {
            Choice::Record(p) => selectors_of(list.drop_last()).push(p),
            _ => selectors_of(list.drop_last()),
        }
    }
}

pub open spec fn file_chosen() -> spec_fn(Choice) -> Option<Seq<char>> {
    |c: Choice|
        match c {
            Choice::File(s) => Some(s),
            _ => None,
        }
}

pub open spec fn output_chosen() -> spec_fn(Choice) -> Option<Seq<char>> {
    |c: Choice|
        match c {
            Choice::Output(s) => Some(s),
            _ => None,
        }
}

pub open spec fn skip_chosen() -> spec_fn(Choice) -> Option<int> {
    |c: Choice|
        match c {
            Choice::Skip(n) => Some(n as int),
            _ => None,
        }
}

pub open spec fn limit_chosen() -> spec_fn(Choice) -> Option<int> {
    |c: Choice|
        match c {
            Choice::Limit(n) => Some(n as int),
            _ => None,
        }
}

pub open spec fn prefix_chosen() -> spec_fn(Choice) -> Option<Seq<char>> {
    |c: Choice|
        match c {
            Choice::AttrPrefix(s) => Some(s),
            _ => None,
        }
}

pub open spec fn key_chosen() -> spec_fn(Choice) -> Option<Seq<char>> {
    |c: Choice|
        match c {
            Choice::TextKey(s) => Some(s),
            _ => None,
        }
}

/// The choices name one file at most.
pub open spec fn one_file(list: Seq<Choice>) -> bool {
    forall|i: int, j: int|
        0 <= i < list.len() && 0 <= j < list.len() && (#[trigger] list[i]) is File && (
        #[trigger] list[j]) is File ==> i == j
}

/// What the choices come to for `carve`.
pub open spec fn carve_meant(list: Seq<Choice>) -> CarveOrder {
    CarveOrder {
        file: last_of(list, file_chosen()),
        output: last_of(list, output_chosen()),
        plan: Plan {
            selectors: selectors_of(list),
            skip: last_or(list, skip_chosen(), 0),
            limit: last_of(list, limit_chosen()),
            rules: Rules {
                attr_prefix: last_or(list, prefix_chosen(), seq!['@']),
                text_key: last_or(list, key_chosen(), seq!['#', 't', 'e', 'x', 't']),
                strip_namespaces: list.contains(Choice::StripNamespaces),
                infer_types: list.contains(Choice::InferTypes),
                wrap: list.contains(Choice::Wrap),
            },
            lenient: list.contains(Choice::Lenient),
        },
        stats: list.contains(Choice::Stats),
    }
}

/// What the choices come to for `inspect`.
pub open spec fn inspect_meant(list: Seq<Choice>) -> InspectOrder {
    InspectOrder {
        file: last_of(list, file_chosen()),
        limit: last_of(list, limit_chosen()),
        lenient: list.contains(Choice::Lenient),
    }
}

/// A number that is written down is read.
proof fn lemma_number(flag: Seq<char>, n: nat)
    requires
        n <= u64::MAX,
    ensures
        cli::flag_number(flag, number::decimal(n)) == Ok::<int, Seq<char>>(n as int),
{
    reading::lemma_decimal(n);
    let s = number::decimal(n);
    assert('0' <= s[0] <= '9');
}

/// A file's name is none of the flags.
proof fn lemma_file(file: Seq<char>)
    requires
        can_be_made(Choice::File(file)),
    ensures
        !cli::is_help(file),
        !cli::carve_takes_value(file),
        !cli::is_option(file),
        file != "--wrap"@,
        file != "--strip-namespaces"@,
        file != "--infer-types"@,
        file != "--lenient"@,
        file != "--stats"@,
        file != "--limit"@,
{
    reveal_strlit("-");
    reveal_strlit("-h");
    reveal_strlit("--help");
    reveal_strlit("-r");
    reveal_strlit("--record");
    reveal_strlit("-o");
    reveal_strlit("--output");
    reveal_strlit("--skip");
    reveal_strlit("--limit");
    reveal_strlit("--attr-prefix");
    reveal_strlit("--text-key");
    reveal_strlit("--wrap");
    reveal_strlit("--strip-namespaces");
    reveal_strlit("--infer-types");
    reveal_strlit("--lenient");
    reveal_strlit("--stats");
    assert(seq!['-'] =~= "-"@);
    assert("-"@.is_prefix_of(file) ==> file.len() > 0 && file[0] == "-"@[0]);
}

/// What one more choice makes of the invocation.
spec fn taken(o: CarveOrder, c: Choice) -> CarveOrder {
    let plan = o.plan;
    let rules = o.plan.rules;
    match c {
        Choice::Record(p) => CarveOrder {
            plan: Plan { selectors: plan.selectors.push(p), ..plan },
            ..o
        },
        Choice::Output(file) => CarveOrder { output: Some(file), ..o },
        Choice::Skip(n) => CarveOrder { plan: Plan { skip: n as int, ..plan }, ..o },
        Choice::Limit(n) => CarveOrder { plan: Plan { limit: Some(n as int), ..plan }, ..o },
        Choice::AttrPrefix(s) => CarveOrder {
            plan: Plan { rules: Rules { attr_prefix: s, ..rules }, ..plan },
            ..o
        },
        Choice::TextKey(s) => CarveOrder {
            plan: Plan { rules: Rules { text_key: s, ..rules }, ..plan },
            ..o
        },
        Choice::Wrap => CarveOrder {
            plan: Plan { rules: Rules { wrap: true, ..rules }, ..plan },
            ..o
        },
        Choice::StripNamespaces => CarveOrder {
            plan: Plan { rules: Rules { strip_namespaces: true, ..rules }, ..plan },
            ..o
        },
        Choice::InferTypes => CarveOrder {
            plan: Plan { rules: Rules { infer_types: true, ..rules }, ..plan },
            ..o
        },
        Choice::Lenient => CarveOrder { plan: Plan { lenient: true, ..plan }, ..o },
        Choice::Stats => CarveOrder { stats: true, ..o },
        Choice::File(file) => CarveOrder { file: Some(file), ..o },
    }
}

/// A flag with its value, and nothing behind it.
proof fn lemma_value(o: CarveOrder, flag: Seq<char>, value: Seq<char>, next: CarveOrder)
    requires
        !cli::is_help(flag),
        cli::carve_takes_value(flag),
        cli::carve_value(o, flag, value) == Ok::<CarveOrder, Seq<char>>(next),
    ensures
        cli::carve_order(o, seq![flag, value]) == Ok::<Option<CarveOrder>, Seq<char>>(Some(next)),
{
    let args = seq![flag, value];
    assert(args.skip(2) =~= seq![]);
    assert(cli::carve_order(next, args.skip(2)) == Ok::<Option<CarveOrder>, Seq<char>>(Some(next)));
}

/// A flag without a value, and nothing behind it.
proof fn lemma_switch(o: CarveOrder, flag: Seq<char>, next: CarveOrder)
    requires
        !cli::is_help(flag),
        !cli::carve_takes_value(flag),
        cli::carve_switch(o, flag) == Some(next),
    ensures
        cli::carve_order(o, seq![flag]) == Ok::<Option<CarveOrder>, Seq<char>>(Some(next)),
{
    let args = seq![flag];
    assert(args.skip(1) =~= seq![]);
    assert(cli::carve_order(next, args.skip(1)) == Ok::<Option<CarveOrder>, Seq<char>>(Some(next)));
}

/// One choice is understood.
#[verifier::spinoff_prover]
proof fn lemma_one(o: CarveOrder, c: Choice, short: bool)
    requires
        can_be_made(c),
        c is File ==> o.file is None,
    ensures
        cli::carve_order(o, worded(c, short)) == Ok::<Option<CarveOrder>, Seq<char>>(
            Some(taken(o, c)),
        ),
{
    reveal_strlit("-h");
    reveal_strlit("--help");
    reveal_strlit("-r");
    reveal_strlit("--record");
    reveal_strlit("-o");
    reveal_strlit("--output");
    reveal_strlit("--skip");
    reveal_strlit("--limit");
    reveal_strlit("--attr-prefix");
    reveal_strlit("--text-key");
    reveal_strlit("--wrap");
    reveal_strlit("--strip-namespaces");
    reveal_strlit("--infer-types");
    reveal_strlit("--lenient");
    reveal_strlit("--stats");
    let args = worded(c, short);
    let next = taken(o, c);
    let flag = args[0];
    assert("-r"@[1] != "-h"@[1]);
    assert("-o"@[1] != "-h"@[1]);
    assert("-o"@[1] != "-r"@[1]);
    assert("--skip"@[2] != "--help"@[2]);
    assert("--wrap"@[2] != "--help"@[2]);
    assert("--wrap"@[2] != "--skip"@[2]);
    assert("--output"@[2] != "--record"@[2]);
    assert("--stats"@[2] != "--limit"@[2]);
    assert("--infer-types"@[2] != "--attr-prefix"@[2]);
    if c is File {
        lemma_file(c->File_0);
        assert(args.skip(1) =~= seq![]);
        assert(cli::carve_order(next, args.skip(1)) == Ok::<Option<CarveOrder>, Seq<char>>(
            Some(next),
        ));
    } else if args.len() == 2 {
        match c {
            Choice::Record(p) => {
                selector::law_written_selectors_are_read(p.segments);
                assert(selector::parsed(p.source) == Ok::<Pattern, Seq<char>>(p));
            },
            Choice::Skip(n) => lemma_number("--skip"@, n),
            Choice::Limit(n) => lemma_number("--limit"@, n),
            _ => {},
        }
        lemma_value(o, flag, args[1], next);
        assert(args =~= seq![flag, args[1]]);
    } else {
        lemma_switch(o, flag, next);
        assert(args =~= seq![flag]);
    }
}

proof fn lemma_one_file(list: Seq<Choice>)
    requires
        one_file(list),
        list.len() > 0,
    ensures
        one_file(list.drop_last()),
        list.last() is File ==> last_of(list.drop_last(), file_chosen()) is None,
{
    let init = list.drop_last();
    assert forall|i: int, j: int|
        0 <= i < init.len() && 0 <= j < init.len() && (#[trigger] init[i]) is File && (
        #[trigger] init[j]) is File implies i == j by {
        assert(list[i] is File && list[j] is File);
    }
    if list.last() is File {
        assert forall|i: int| 0 <= i < init.len() implies !((#[trigger] init[i]) is File) by {
            assert(list[i] == init[i]);
            assert(list[list.len() - 1] is File);
        }
        lemma_no_file(init);
    }
}

proof fn lemma_no_file(list: Seq<Choice>)
    requires
        forall|i: int| 0 <= i < list.len() ==> !((#[trigger] list[i]) is File),
    ensures
        last_of(list, file_chosen()) is None,
    decreases list.len(),
{
    if list.len() > 0 {
        let init = list.drop_last();
        assert forall|i: int| 0 <= i < init.len() implies !((#[trigger] init[i]) is File) by {
            assert(list[i] == init[i]);
        }
        lemma_no_file(init);
        assert(!(list[list.len() - 1] is File));
    }
}

/// Whether a choice is among them.
proof fn lemma_contains(list: Seq<Choice>, c: Choice)
    requires
        list.len() > 0,
    ensures
        list.contains(c) <==> list.drop_last().contains(c) || list.last() == c,
{
    let init = list.drop_last();
    if init.contains(c) {
        let i = choose|i: int| 0 <= i < init.len() && init[i] == c;
        assert(list[i] == c);
    }
    if list.last() == c {
        assert(list[list.len() - 1] == c);
    }
    if list.contains(c) {
        let i = choose|i: int| 0 <= i < list.len() && list[i] == c;
        if i < init.len() {
            assert(init[i] == c);
        }
    }
}

/// One more choice in the list.
proof fn lemma_meant_step(list: Seq<Choice>)
    requires
        list.len() > 0,
    ensures
        carve_meant(list) == taken(carve_meant(list.drop_last()), list.last()),
{
    lemma_contains(list, Choice::Wrap);
    lemma_contains(list, Choice::StripNamespaces);
    lemma_contains(list, Choice::InferTypes);
    lemma_contains(list, Choice::Lenient);
    lemma_contains(list, Choice::Stats);
}

/// The choices are understood one by one.
proof fn lemma_all(list: Seq<Choice>, short: bool)
    requires
        forall|i: int| 0 <= i < list.len() ==> can_be_made(#[trigger] list[i]),
        one_file(list),
    ensures
        cli::carve_order(cli::carve_defaults(), all_worded(list, short)) == Ok::<
            Option<CarveOrder>,
            Seq<char>,
        >(Some(carve_meant(list))),
    decreases list.len(),
{
    let start = cli::carve_defaults();
    if list.len() == 0 {
        reveal_strlit("@");
        reveal_strlit("#text");
        assert("@"@ =~= seq!['@']);
        assert("#text"@ =~= seq!['#', 't', 'e', 'x', 't']);
        assert(carve_meant(list) =~= start);
    } else {
        let init = list.drop_last();
        assert forall|i: int| 0 <= i < init.len() implies can_be_made(#[trigger] init[i]) by {
            assert(list[i] == init[i]);
        }
        assert(can_be_made(list[list.len() - 1]));
        lemma_one_file(list);
        lemma_all(init, short);
        lemma_meant_step(list);
        lemma_one(carve_meant(init), list.last(), short);
        cli::law_arguments_are_read_in_order(
            start,
            all_worded(init, short),
            worded(list.last(), short),
        );
    }
}

/// A `carve` invocation is understood as it is worded: a setting is what was
/// chosen last, or else its default; a switch is on when it was chosen; the
/// selectors are all that were chosen, in their order. It is accepted just when
/// it names a file and a selector, and its limit, if any, is not zero.
pub proof fn law_carves_are_understood(list: Seq<Choice>, short: bool)
    requires
        forall|i: int| 0 <= i < list.len() ==> can_be_made(#[trigger] list[i]),
        one_file(list),
    ensures
        ({
            let o = carve_meant(list);
            let args = all_worded(list, short);
            if o.file is Some && selectors_of(list).len() > 0 && o.plan.limit != Some(0int) {
                &&& cli::carve_args(args) == Ok::<Option<CarveOrder>, Seq<char>>(Some(o))
                &&& cli::request(seq![seq!['c', 'a', 'r', 'v', 'e']] + args) == Request::Carve(o)
            } else {
                &&& cli::carve_args(args) is Err
                &&& cli::request(seq![seq!['c', 'a', 'r', 'v', 'e']] + args) is Refuse
            }
        }),
{
    lemma_all(list, short);
    let args = all_worded(list, short);
    let all = seq![seq!['c', 'a', 'r', 'v', 'e']] + args;
    reveal_strlit("carve");
    reveal_strlit("-h");
    reveal_strlit("--help");
    reveal_strlit("-V");
    reveal_strlit("--version");
    assert(all[0] =~= "carve"@);
    assert(all.skip(1) =~= args);
}

/// The choices that `inspect` has.
pub open spec fn inspect_has(c: Choice) -> bool {
    c is Limit || c is Lenient || c is File
}

/// What one more choice makes of the invocation.
spec fn inspect_taken(o: InspectOrder, c: Choice) -> InspectOrder {
    match c {
        Choice::Limit(n) => InspectOrder { limit: Some(n as int), ..o },
        Choice::Lenient => InspectOrder { lenient: true, ..o },
        Choice::File(file) => InspectOrder { file: Some(file), ..o },
        _ => o,
    }
}

/// Behind a choice that is made, the rest is read.
proof fn lemma_inspect_one(o: InspectOrder, c: Choice, short: bool, rest: Seq<Seq<char>>)
    requires
        can_be_made(c),
        inspect_has(c),
        c is File ==> o.file is None,
    ensures
        cli::inspect_order(o, worded(c, short) + rest) == cli::inspect_order(
            inspect_taken(o, c),
            rest,
        ),
{
    reveal_strlit("-h");
    reveal_strlit("--help");
    reveal_strlit("--limit");
    reveal_strlit("--lenient");
    let args = worded(c, short);
    let all = args + rest;
    assert(all.skip(args.len() as int) =~= rest);
    assert(all[0] == args[0]);
    match c {
        Choice::Limit(n) => {
            assert(all[1] == args[1]);
            lemma_number("--limit"@, n);
        },
        Choice::File(file) => lemma_file(file),
        _ => {},
    }
}

proof fn lemma_inspect_all(list: Seq<Choice>, short: bool, rest: Seq<Seq<char>>)
    requires
        forall|i: int|
            0 <= i < list.len() ==> can_be_made(#[trigger] list[i]) && inspect_has(list[i]),
        one_file(list),
    ensures
        cli::inspect_order(cli::inspect_defaults(), all_worded(list, short) + rest)
            == cli::inspect_order(inspect_meant(list), rest),
    decreases list.len(),
{
    if list.len() == 0 {
        assert(all_worded(list, short) + rest =~= rest);
        assert(inspect_meant(list) =~= cli::inspect_defaults());
    } else {
        let init = list.drop_last();
        let last = worded(list.last(), short);
        assert forall|i: int| 0 <= i < init.len() implies can_be_made(#[trigger] init[i])
            && inspect_has(init[i]) by {
            assert(list[i] == init[i]);
        }
        assert(can_be_made(list[list.len() - 1]));
        lemma_one_file(list);
        lemma_contains(list, Choice::Lenient);
        lemma_inspect_all(init, short, last + rest);
        lemma_inspect_one(inspect_meant(init), list.last(), short, rest);
        assert(inspect_meant(list) == inspect_taken(inspect_meant(init), list.last()));
        assert(all_worded(list, short) + rest =~= all_worded(init, short) + (last + rest));
    }
}

/// An `inspect` invocation is understood as it is worded. It is accepted just
/// when it names a file, and its limit, if any, is not zero.
pub proof fn law_inspects_are_understood(list: Seq<Choice>, short: bool)
    requires
        forall|i: int|
            0 <= i < list.len() ==> can_be_made(#[trigger] list[i]) && inspect_has(list[i]),
        one_file(list),
    ensures
        ({
            let o = inspect_meant(list);
            let args = all_worded(list, short);
            let all = seq![seq!['i', 'n', 's', 'p', 'e', 'c', 't']] + args;
            if o.file is Some && o.limit != Some(0int) {
                &&& cli::inspect_args(args) == Ok::<Option<InspectOrder>, Seq<char>>(Some(o))
                &&& cli::request(all) == Request::Inspect(o)
            } else {
                &&& cli::inspect_args(args) is Err
                &&& cli::request(all) is Refuse
            }
        }),
{
    lemma_inspect_all(list, short, seq![]);
    let args = all_worded(list, short);
    assert(args + seq![] =~= args);
    let all = seq![seq!['i', 'n', 's', 'p', 'e', 'c', 't']] + args;
    reveal_strlit("carve");
    reveal_strlit("inspect");
    reveal_strlit("-h");
    reveal_strlit("--help");
    reveal_strlit("-V");
    reveal_strlit("--version");
    assert(all[0] =~= "inspect"@);
    assert(all.skip(1) =~= args);
}

} // verus!
