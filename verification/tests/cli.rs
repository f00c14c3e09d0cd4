//! Flag parsing is pure; every rejection path a user can hit gets a
//! precise error string they can act on.

use xmlcarve::carve::{CarveError, CarveStats, OutputError};
use xmlcarve::cli::{
    dispatch, file_failure, finish_carve, finish_inspect, parse_carve_args, parse_inspect_args,
    show_report, CarveCmd, Command, InspectCmd, CARVE_USAGE, INSPECT_USAGE, USAGE,
};
use xmlcarve::inspect::{inspect, InspectOptions, PathCount, Report};
use xmlcarve::xml::ParseError;

fn argv(args: &[&str]) -> Vec<String> {
    args.iter().map(|s| s.to_string()).collect()
}

#[test]
fn carve_requires_a_selector_and_a_file_with_actionable_errors() {
    let err = parse_carve_args(&argv(&["file.xml"])).unwrap_err();
    assert!(err.contains("--record"), "got: {err}");
    assert!(
        err.contains("inspect"),
        "should suggest the discovery path: {err}"
    );
    let err = parse_carve_args(&argv(&["-r", "page"])).unwrap_err();
    assert!(err.contains("missing input file"), "got: {err}");
    assert!(err.contains("stdin"), "should mention '-': {err}");
}

#[test]
fn carve_parses_the_full_flag_set() {
    let cmd = parse_carve_args(&argv(&[
        "-r",
        "page",
        "--record",
        "entry",
        "--skip",
        "2",
        "--limit",
        "5",
        "--attr-prefix",
        "",
        "--text-key",
        "text",
        "--wrap",
        "--strip-namespaces",
        "--infer-types",
        "--lenient",
        "--stats",
        "-o",
        "out.jsonl",
        "dump.xml",
    ]))
    .unwrap()
    .unwrap();
    assert_eq!(cmd.file, "dump.xml");
    assert_eq!(cmd.output.as_deref(), Some("out.jsonl"));
    assert_eq!(cmd.opts.selectors.len(), 2);
    assert_eq!(cmd.opts.skip, 2);
    assert_eq!(cmd.opts.limit, Some(5));
    assert_eq!(cmd.opts.map.attr_prefix, "");
    assert_eq!(cmd.opts.map.text_key, "text");
    assert!(cmd.opts.map.wrap);
    assert!(cmd.opts.map.strip_namespaces);
    assert!(cmd.opts.map.infer_types);
    assert!(cmd.opts.parser.lenient_entities);
    assert!(cmd.stats);
}

#[test]
fn dash_means_stdin_and_is_not_an_unknown_option() {
    let cmd = parse_carve_args(&argv(&["-r", "page", "-"]))
        .unwrap()
        .unwrap();
    assert_eq!(cmd.file, "-");
}

#[test]
fn numeric_flags_reject_garbage_with_the_offending_value() {
    // Bad selector values carry the flag context too.
    let err = parse_carve_args(&argv(&["-r", "a//b", "f.xml"])).unwrap_err();
    assert!(err.starts_with("--record:"), "got: {err}");
    let err = parse_carve_args(&argv(&["-r", "p", "--skip", "many", "f.xml"])).unwrap_err();
    assert!(err.contains("'many'"), "got: {err}");
    let err = parse_carve_args(&argv(&["-r", "p", "--limit"])).unwrap_err();
    assert!(err.contains("requires a value"), "got: {err}");
    let err = parse_carve_args(&argv(&["-r", "p", "--limit", "0", "f.xml"])).unwrap_err();
    assert!(err.contains("at least 1"), "got: {err}");
}

#[test]
fn unknown_options_and_extra_positionals_are_rejected() {
    let err = parse_carve_args(&argv(&["-r", "p", "--frobnicate", "f.xml"])).unwrap_err();
    assert!(err.contains("--frobnicate"), "got: {err}");
    let err = parse_carve_args(&argv(&["-r", "p", "a.xml", "b.xml"])).unwrap_err();
    assert!(err.contains("'b.xml'"), "got: {err}");
}

#[test]
fn empty_text_key_is_rejected_but_empty_attr_prefix_is_allowed() {
    // No prefix = attributes merge into the same namespace as children;
    // legitimate. An empty text key would produce {"": ...} — never.
    assert!(parse_carve_args(&argv(&["-r", "p", "--attr-prefix", "", "f.xml"])).is_ok());
    let err = parse_carve_args(&argv(&["-r", "p", "--text-key", "", "f.xml"])).unwrap_err();
    assert!(err.contains("--text-key"), "got: {err}");
}

#[test]
fn help_flags_short_circuit_to_ok_none() {
    assert_eq!(parse_carve_args(&argv(&["--help"])).unwrap(), None);
    assert_eq!(
        parse_carve_args(&argv(&["-r", "p", "-h", "f.xml"])).unwrap(),
        None
    );
    assert_eq!(parse_inspect_args(&argv(&["--help"])).unwrap(), None);
}

#[test]
fn inspect_parses_limit_lenient_and_file() {
    let cmd = parse_inspect_args(&argv(&["--limit", "1000", "--lenient", "dump.xml"]))
        .unwrap()
        .unwrap();
    assert_eq!(
        cmd,
        InspectCmd {
            file: "dump.xml".into(),
            limit: Some(1000),
            lenient: true
        }
    );
}

#[test]
fn inspect_rejects_carve_only_flags() {
    let err = parse_inspect_args(&argv(&["--wrap", "f.xml"])).unwrap_err();
    assert!(err.contains("--wrap"), "got: {err}");
}

#[test]
fn the_first_argument_chooses_the_command() {
    assert_eq!(dispatch(&[]), Command::Refuse(USAGE.into()));
    for help in ["-h", "--help"] {
        assert_eq!(dispatch(&argv(&[help])), Command::Print(USAGE.into()));
        assert_eq!(
            dispatch(&argv(&["carve", help])),
            Command::Print(CARVE_USAGE.into())
        );
        assert_eq!(
            dispatch(&argv(&["inspect", help])),
            Command::Print(INSPECT_USAGE.into())
        );
    }
    for version in ["-V", "--version"] {
        assert_eq!(
            dispatch(&argv(&[version])),
            Command::Print("xmlcarve 0.1.0\n".into())
        );
    }
    assert_eq!(
        dispatch(&argv(&["inspect", "f.xml"])),
        Command::Inspect(InspectCmd {
            file: "f.xml".into(),
            limit: None,
            lenient: false
        })
    );
    let cmd = carve_cmd(&["-r", "p", "f.xml"]);
    assert_eq!(
        dispatch(&argv(&["carve", "-r", "p", "f.xml"])),
        Command::Carve(cmd)
    );
}

#[test]
fn usage_errors_point_at_the_help() {
    assert_eq!(
        dispatch(&argv(&["chop", "x.xml"])),
        Command::Refuse(
            "xmlcarve: error: unknown command 'chop'\nRun 'xmlcarve --help' for usage.\n".into()
        )
    );
    assert_eq!(
        dispatch(&argv(&["carve", "-r", "p", "--bogus", "x.xml"])),
        Command::Refuse(
            "xmlcarve: error: unknown option '--bogus'\nRun 'xmlcarve carve --help' for usage.\n"
                .into()
        )
    );
    assert_eq!(
        dispatch(&argv(&["inspect"])),
        Command::Refuse(
            "xmlcarve: error: missing input file (use '-' for stdin)\n\
             Run 'xmlcarve inspect --help' for usage.\n"
                .into()
        )
    );
}

#[test]
fn help_texts_are_what_users_see() {
    assert!(USAGE.starts_with("xmlcarve — stream giant XML files into JSONL by record element\n\n"));
    assert!(USAGE.contains("COMMANDS:\n    carve      Stream"));
    assert!(CARVE_USAGE.contains("Wrap each record as {\"<element>\": ...}\n"));
    assert!(INSPECT_USAGE.ends_with("    -h, --help         Print help\n"));
}

#[test]
fn each_refused_command_line_has_its_message() {
    let carve = |args: &[&str]| parse_carve_args(&argv(args)).unwrap_err();
    assert_eq!(carve(&["-r"]), "-r requires a value");
    assert_eq!(carve(&["--output"]), "--output requires a value");
    assert_eq!(
        carve(&["--skip", "-1"]),
        "--skip expects a non-negative integer, got '-1'"
    );
    assert_eq!(
        carve(&["--limit", "18446744073709551616"]),
        "--limit expects a non-negative integer, got '18446744073709551616'"
    );
    assert_eq!(carve(&["-r", ""]), "--record: selector is empty");
    assert_eq!(carve(&["--text-key", ""]), "--text-key must not be empty");
    assert_eq!(carve(&["-x"]), "unknown option '-x'");
    assert_eq!(carve(&["a", "b"]), "unexpected extra argument 'b'");
    assert_eq!(carve(&[]), "missing input file (use '-' for stdin)");
    assert_eq!(
        carve(&["f"]),
        "at least one --record selector is required (try 'xmlcarve inspect <FILE>' to find one)"
    );
    assert_eq!(
        carve(&["-r", "p", "f", "--limit", "0"]),
        "--limit must be at least 1"
    );
    let inspect = |args: &[&str]| parse_inspect_args(&argv(args)).unwrap_err();
    assert_eq!(inspect(&["--limit", "0"]), "--limit must be at least 1");
    assert_eq!(inspect(&[]), "missing input file (use '-' for stdin)");
    assert_eq!(inspect(&["a", "b"]), "unexpected extra argument 'b'");
    assert_eq!(inspect(&["--limit"]), "--limit requires a value");
    assert_eq!(
        inspect(&["--limit", "x"]),
        "--limit expects a non-negative integer, got 'x'"
    );
}

#[test]
fn help_wins_wherever_it_is_reached() {
    for args in [
        &["-h"][..],
        &["--skip", "1", "-h", "--bogus"],
        &["f.xml", "--help", "g.xml"],
    ] {
        assert_eq!(parse_carve_args(&argv(args)).unwrap(), None);
    }
    // As a value it is none, and an error before it comes first.
    assert_eq!(carve_cmd(&["-r", "p", "-o", "-h", "f"]).output.unwrap(), "-h");
    assert!(parse_carve_args(&argv(&["--bogus", "-h"])).is_err());
}

#[test]
fn values_may_look_like_options_and_the_last_one_counts() {
    let cmd = carve_cmd(&[
        "--attr-prefix", "--wrap", "--skip", "1", "--skip", "+2", "-r", "p", "f",
    ]);
    assert_eq!(cmd.opts.map.attr_prefix, "--wrap");
    assert!(!cmd.opts.map.wrap);
    assert_eq!(cmd.opts.skip, 2);
    assert_eq!(cmd.opts.limit, None);
    assert_eq!(cmd.opts.map.text_key, "#text");
}

fn carve_cmd(args: &[&str]) -> CarveCmd {
    parse_carve_args(&argv(args)).unwrap().unwrap()
}

#[test]
fn a_carve_ends_with_its_stats_if_they_are_wanted() {
    let stats = CarveStats {
        records_matched: 12,
        records_written: 10,
        bytes_read: 3456,
    };
    let quiet = finish_carve(&carve_cmd(&["-r", "p", "f.xml"]), &Ok(stats));
    assert_eq!((quiet.code, quiet.stdout.as_str(), quiet.stderr.as_str()), (0, "", ""));
    let loud = finish_carve(&carve_cmd(&["-r", "p", "--stats", "f.xml"]), &Ok(stats));
    assert_eq!(loud.code, 0);
    assert_eq!(
        loud.stderr,
        "xmlcarve: wrote 10 record(s) (12 matched, 2 skipped), 3456 bytes read\n"
    );
}

#[test]
fn a_carve_fails_with_its_cause_but_not_for_a_closed_pipe() {
    let cmd = carve_cmd(&["-r", "p", "--stats", "f.xml"]);
    let parse = CarveError::Parse(ParseError {
        message: "bad".into(),
        line: 7,
    });
    let ending = finish_carve(&cmd, &Err(parse));
    assert_eq!(ending.code, 1);
    assert_eq!(ending.stderr, "xmlcarve: f.xml: line 7: bad\n");
    let io = |broken_pipe| {
        CarveError::Io(OutputError {
            message: "gone".into(),
            broken_pipe,
        })
    };
    let ending = finish_carve(&cmd, &Err(io(false)));
    assert_eq!(ending.code, 1);
    assert_eq!(ending.stderr, "xmlcarve: f.xml: output error: gone\n");
    let ending = finish_carve(&cmd, &Err(io(true)));
    assert_eq!((ending.code, ending.stderr.as_str()), (0, ""));
    let ending = file_failure("nope.xml", "No such file");
    assert_eq!(ending.code, 1);
    assert_eq!(ending.stderr, "xmlcarve: nope.xml: No such file\n");
}

#[test]
fn a_profile_ends_with_its_table() {
    let cmd = parse_inspect_args(&argv(&["f.xml"])).unwrap().unwrap();
    let report = inspect(b"<r><a x='1'/><a/></r>", &InspectOptions::default()).unwrap();
    let ending = finish_inspect(&cmd, &Ok(report.clone()));
    assert_eq!((ending.code, ending.stderr.as_str()), (0, ""));
    assert_eq!(
        ending.stdout,
        format!(
            "{:>10}  {:>10}  path\n{:>10}  {:>10}  r\n{:>10}  {:>10}  r/a\n\n\
             3 element(s) scanned, 21 bytes read\nsuggested --record: r/a\n",
            "count", "w/attrs", 1, 0, 2, 1
        )
    );
    assert_eq!(show_report(&report), ending.stdout);

    let opts = InspectOptions {
        limit: Some(1),
        ..InspectOptions::default()
    };
    let cut = show_report(&inspect(b"<r><a/></r>", &opts).unwrap());
    assert!(cut.ends_with(
        "\n1 element(s) scanned, 3 bytes read (scan truncated by --limit)\n\
         no repeating record element found\n"
    ));

    let err = inspect(b"", &InspectOptions::default()).unwrap_err();
    let ending = finish_inspect(&cmd, &Err(err));
    assert_eq!(ending.code, 1);
    assert_eq!(
        ending.stderr,
        "xmlcarve: f.xml: line 1: no XML element found in input\n"
    );
}

#[test]
fn wide_numbers_push_the_columns_out() {
    let report = Report {
        paths: vec![PathCount {
            path: "p".into(),
            count: u64::MAX,
            with_attrs: 1234567890,
        }],
        elements_seen: 0,
        bytes_read: 0,
        truncated: false,
        suggestion: None,
    };
    assert!(show_report(&report).contains("\n18446744073709551615  1234567890  p\n"));
}
