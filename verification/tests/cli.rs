use mikiwame::cli::{
    batch_outcome, batch_summary, flag, output_format, parse_command, select_findings, CliError,
    Command, OutputFormat,
};
use mikiwame::FindingCode;

fn args(items: &[&str]) -> Vec<String> {
    items.iter().map(|s| s.to_string()).collect()
}

#[test]
fn flag_finds_the_value_after_its_name() {
    let args = vec!["--format".to_string(), "markdown".to_string()];
    assert_eq!(flag(&args, "--format"), Some("markdown"));
    assert_eq!(flag(&args, "--output"), None);
}

#[test]
fn flag_with_no_trailing_value_is_none() {
    let args = vec!["--format".to_string()];
    assert_eq!(flag(&args, "--format"), None);
}

#[test]
fn flag_takes_the_first_occurrence() {
    let a = args(&["--format", "json", "--format", "markdown"]);
    assert_eq!(flag(&a, "--format"), Some("json"));
}

#[test]
fn flag_value_may_itself_look_like_a_flag() {
    let a = args(&["--output", "--format"]);
    assert_eq!(flag(&a, "--output"), Some("--format"));
}

#[test]
fn no_arguments_is_missing_subcommand() {
    let r = parse_command(&[]);
    assert!(matches!(r, Err(CliError::MissingSubcommand)));
    assert_eq!(
        CliError::MissingSubcommand.message(),
        "expected a subcommand: analyze, batch, explain, or doctor"
    );
}

#[test]
fn unknown_subcommand_is_named_in_the_error() {
    let r = parse_command(&args(&["frobnicate", "x"]));
    match r {
        Err(e) => {
            assert_eq!(
                e,
                CliError::UnknownSubcommand {
                    name: "frobnicate".to_string()
                }
            );
            assert_eq!(
                e.message(),
                "unknown subcommand 'frobnicate'; expected analyze, batch, explain, or doctor"
            );
        }
        Ok(_) => panic!("expected an error"),
    }
}

#[test]
fn analyze_defaults_to_json() {
    match parse_command(&args(&["analyze", "nacl.json"])) {
        Ok(Command::Analyze { path, format }) => {
            assert_eq!(path, "nacl.json");
            assert_eq!(format, "json");
        }
        _ => panic!("expected analyze"),
    }
}

#[test]
fn analyze_takes_the_format_flag() {
    match parse_command(&args(&["analyze", "nacl.json", "--format", "markdown"])) {
        Ok(Command::Analyze { path, format }) => {
            assert_eq!(path, "nacl.json");
            assert_eq!(format, "markdown");
        }
        _ => panic!("expected analyze"),
    }
}

#[test]
fn analyze_without_path_is_an_error() {
    let r = parse_command(&args(&["analyze"]));
    assert!(matches!(r, Err(CliError::AnalyzeNeedsPath)));
    assert_eq!(
        CliError::AnalyzeNeedsPath.message(),
        "analyze requires a structure file path"
    );
}

#[test]
fn batch_needs_path_and_output() {
    assert!(matches!(
        parse_command(&args(&["batch"])),
        Err(CliError::BatchNeedsPath)
    ));
    assert!(matches!(
        parse_command(&args(&["batch", "in.jsonl"])),
        Err(CliError::BatchNeedsOutput)
    ));
    match parse_command(&args(&["batch", "in.jsonl", "--output", "out.jsonl"])) {
        Ok(Command::Batch { path, output }) => {
            assert_eq!(path, "in.jsonl");
            assert_eq!(output, "out.jsonl");
        }
        _ => panic!("expected batch"),
    }
    assert_eq!(
        CliError::BatchNeedsOutput.message(),
        "batch requires --output <path>"
    );
    assert_eq!(
        CliError::BatchNeedsPath.message(),
        "batch requires a structures.jsonl path"
    );
}

#[test]
fn explain_needs_path_and_finding() {
    assert!(matches!(
        parse_command(&args(&["explain"])),
        Err(CliError::ExplainNeedsPath)
    ));
    assert!(matches!(
        parse_command(&args(&["explain", "report.json"])),
        Err(CliError::ExplainNeedsFinding)
    ));
    match parse_command(&args(&["explain", "report.json", "--finding", "SITE_DUPLICATE"])) {
        Ok(Command::Explain { path, finding }) => {
            assert_eq!(path, "report.json");
            assert_eq!(finding, "SITE_DUPLICATE");
        }
        _ => panic!("expected explain"),
    }
    assert_eq!(
        CliError::ExplainNeedsFinding.message(),
        "explain requires --finding <CODE>"
    );
    assert_eq!(
        CliError::ExplainNeedsPath.message(),
        "explain requires a report file path"
    );
}

#[test]
fn doctor_ignores_further_arguments() {
    assert!(matches!(
        parse_command(&args(&["doctor", "--verbose"])),
        Ok(Command::Doctor)
    ));
}

#[test]
fn output_formats() {
    assert_eq!(output_format("json"), Ok(OutputFormat::Json));
    assert_eq!(output_format("markdown"), Ok(OutputFormat::Markdown));
    let e = output_format("yaml").unwrap_err();
    assert_eq!(
        e,
        CliError::UnknownFormat {
            format: "yaml".to_string()
        }
    );
    assert_eq!(
        e.message(),
        "unknown --format 'yaml'; expected json or markdown"
    );
}

#[test]
fn batch_fails_only_when_every_line_was_skipped() {
    assert_eq!(batch_outcome("in.jsonl", 0, 0), Ok(()));
    assert_eq!(batch_outcome("in.jsonl", 3, 2), Ok(()));
    let e = batch_outcome("in.jsonl", 0, 2).unwrap_err();
    assert_eq!(
        e.message(),
        "no valid structures found in in.jsonl (2 line(s) skipped)"
    );
}

#[test]
fn batch_summary_mentions_skipped_lines_only_when_there_are_some() {
    assert_eq!(batch_summary(3, "out.jsonl", 0), "wrote 3 report(s) to out.jsonl");
    assert_eq!(
        batch_summary(12, "out.jsonl", 2),
        "wrote 12 report(s) to out.jsonl (2 line(s) skipped, see warnings above)"
    );
}

#[test]
fn select_findings_keeps_matching_positions_in_order() {
    let codes = vec![
        FindingCode::SiteDuplicate,
        FindingCode::DisorderPresent,
        FindingCode::SiteDuplicate,
    ];
    assert_eq!(
        select_findings(&codes, "SITE_DUPLICATE", "r.json"),
        Ok(vec![0, 2])
    );
    assert_eq!(
        select_findings(&codes, "DISORDER_PRESENT", "r.json"),
        Ok(vec![1])
    );
    let e = select_findings(&codes, "LATTICE_SINGULAR", "r.json").unwrap_err();
    assert_eq!(e.message(), "no finding with code 'LATTICE_SINGULAR' in r.json");
    assert!(select_findings(&codes, "site_duplicate", "r.json").is_err());
}
