//! The command line's decisions: which subcommand was asked for, with which
//! arguments, and what is reported when arguments are missing or a run
//! finds nothing to do. Reading and writing files, and printing, belong to
//! the program around this library.

use vstd::prelude::*;
use vstd::string::*;

use crate::finding::{code_str, string_views, FindingCode};
use crate::text::{decimal, decimal_text, str_eq};

verus! {

/// The value after the first occurrence of `name` at or after position `k`
/// of `args`, if that occurrence has a successor.
pub open spec fn flag_from(args: Seq<Seq<char>>, name: Seq<char>, k: int) -> Option<Seq<char>>
    decreases args.len() - k,
{
    if k < 0 || k >= args.len() {
        None
    } else if args[k] == name {
        if k + 1 < args.len() {
            Some(args[k + 1])
        } else {
            None
        }
    } else {
        flag_from(args, name, k + 1)
    }
}

/// The value following `--name` in `args`: the argument right after the
/// first occurrence of `name`, if there is one.
pub open spec fn flag_value(args: Seq<Seq<char>>, name: Seq<char>) -> Option<Seq<char>> {
    flag_from(args, name, 0)
}

proof fn lemma_flag_from_skip(args: Seq<Seq<char>>, name: Seq<char>, k: int)
    requires
        0 <= k,
        args.len() >= 1,
    ensures
        flag_from(args.skip(1), name, k) == flag_from(args, name, k + 1),
    decreases args.len() - k,
{
    if k < args.skip(1).len() {
        assert(args.skip(1)[k] == args[k + 1]);
        if k + 1 < args.skip(1).len() {
            assert(args.skip(1)[k + 1] == args[k + 2]);
        }
        lemma_flag_from_skip(args, name, k + 1);
    }
}

fn flag_at<'a>(args: &'a [String], name: &str, start: usize) -> (r: Option<&'a str>)
    ensures
        r is None <==> flag_from(string_views(args@), name@, start as int) is None,
        r matches Some(v) ==> flag_from(string_views(args@), name@, start as int) == Some(v@),
    decreases args@.len() - start,
{
    let n = args.len();
    let mut k = start;
    while k < n
        invariant
            n == args@.len(),
            start <= k,
            flag_from(string_views(args@), name@, start as int) == flag_from(
                string_views(args@),
                name@,
                k as int,
            ),
        decreases n - k,
    {
        assert(string_views(args@)[k as int] == args@[k as int]@);
        if str_eq(args[k].as_str(), name) {
            if k + 1 < n {
                assert(string_views(args@)[k + 1] == args@[k + 1]@);
                return Some(args[k + 1].as_str());
            } else {
                return None;
            }
        }
        k = k + 1;
    }
    None
}

/// Returns the value following `name` in `args` (the argument right after
/// its first occurrence), if present.
pub fn flag<'a>(args: &'a [String], name: &str) -> (r: Option<&'a str>)
    ensures
        r is None <==> flag_value(string_views(args@), name@) is None,
        r matches Some(v) ==> flag_value(string_views(args@), name@) == Some(v@),
{
    flag_at(args, name, 0)
}

/// A subcommand with its arguments.
#[derive(Debug, Clone, PartialEq, Eq)]
pub enum Command {
    /// Analyze one structure file; `format` is the `--format` value as
    /// given (`json` when absent), checked by [`output_format`] once the
    /// file has been read.
    Analyze { path: String, format: String },
    /// Analyze every structure of a JSONL file into an output file.
    Batch { path: String, output: String },
    /// Explain the findings with one code in a report file.
    Explain { path: String, finding: String },
    /// Report how this build is configured.
    Doctor,
}

/// Why a command line could not be carried out.
#[derive(Debug, Clone, PartialEq, Eq)]
pub enum CliError {
    /// No subcommand was given.
    MissingSubcommand,
    /// The subcommand is not one of analyze, batch, explain, doctor.
    UnknownSubcommand { name: String },
    /// `analyze` without a structure file path.
    AnalyzeNeedsPath,
    /// `batch` without an input path.
    BatchNeedsPath,
    /// `batch` without `--output <path>`.
    BatchNeedsOutput,
    /// `explain` without a report file path.
    ExplainNeedsPath,
    /// `explain` without `--finding <CODE>`.
    ExplainNeedsFinding,
    /// `--format` is neither `json` nor `markdown`.
    UnknownFormat { format: String },
    /// Every non-blank line of a batch file failed to parse.
    NoValidStructures { path: String, skipped: usize },
    /// The report holds no finding with the requested code.
    NoSuchFinding { code: String, path: String },
}

/// The mathematical value of a [`Command`].
pub enum CommandView {
    Analyze { path: Seq<char>, format: Seq<char> },
    Batch { path: Seq<char>, output: Seq<char> },
    Explain { path: Seq<char>, finding: Seq<char> },
    Doctor,
}

impl View for Command {
    type V = CommandView;

    open spec fn view(&self) -> CommandView {
        match self {
            Command::Analyze { path, format } => CommandView::Analyze { path: path@, format: format@ },
            Command::Batch { path, output } => CommandView::Batch { path: path@, output: output@ },
            Command::Explain { path, finding } => CommandView::Explain {
                path: path@,
                finding: finding@,
            },
            Command::Doctor => CommandView::Doctor,
        }
    }
}

/// What a command line asks for: `Ok(command)`, or `Err(e)` where
/// `parse_error_spec` describes `e`.
pub open spec fn parse_spec(args: Seq<Seq<char>>) -> Option<CommandView> {
    if args.len() == 0 {
        None
    } else {
        let rest = args.skip(1);
        let sub = args[0];
        if sub == "analyze"@ {
            if rest.len() == 0 {
                None
            } else {
                Some(
                    CommandView::Analyze {
                        path: rest[0],
                        format: match flag_value(rest, "--format"@) {
                            Some(f) => f,
                            None => "json"@,
                        },
                    },
                )
            }
        } else if sub == "batch"@ {
            if rest.len() == 0 {
                None
            } else {
                match flag_value(rest, "--output"@) {
                    Some(o) => Some(CommandView::Batch { path: rest[0], output: o }),
                    None => None,
                }
            }
        } else if sub == "explain"@ {
            if rest.len() == 0 {
                None
            } else {
                match flag_value(rest, "--finding"@) {
                    Some(c) => Some(CommandView::Explain { path: rest[0], finding: c }),
                    None => None,
                }
            }
        } else if sub == "doctor"@ {
            Some(CommandView::Doctor)
        } else {
            None
        }
    }
}

/// Which error a command line that asks for nothing valid gets.
pub open spec fn parse_error_spec(args: Seq<Seq<char>>, e: CliError) -> bool {
    if args.len() == 0 {
        e == CliError::MissingSubcommand
    } else {
        let rest = args.skip(1);
        let sub = args[0];
        if sub == "analyze"@ {
            e == CliError::AnalyzeNeedsPath
        } else if sub == "batch"@ {
            if rest.len() == 0 {
                e == CliError::BatchNeedsPath
            } else {
                e == CliError::BatchNeedsOutput
            }
        } else if sub == "explain"@ {
            if rest.len() == 0 {
                e == CliError::ExplainNeedsPath
            } else {
                e == CliError::ExplainNeedsFinding
            }
        } else {
            e matches CliError::UnknownSubcommand { name } && name@ == sub
        }
    }
}

fn owned(s: &str) -> (r: String)
    ensures
        r@ == s@,
{
    String::from_str(s)
}

/// Parses a command line (the arguments after the program name).
pub fn parse_command(args: &[String]) -> (r: Result<Command, CliError>)
    ensures
        match r {
            Ok(c) => parse_spec(string_views(args@)) == Some(c@),
            Err(e) => parse_spec(string_views(args@)) is None && parse_error_spec(
                string_views(args@),
                e,
            ),
        },
{
    let ghost a = string_views(args@);
    if args.len() == 0 {
        return Err(CliError::MissingSubcommand);
    }
    let sub = args[0].as_str();
    assert(a[0] == sub@);
    proof {
        assert forall|k: int| 0 <= k < a.skip(1).len() implies #[trigger] a.skip(1)[k] == args@[k + 1]@ by {}
        lemma_flag_from_skip(a, "--format"@, 0);
        lemma_flag_from_skip(a, "--output"@, 0);
        lemma_flag_from_skip(a, "--finding"@, 0);
    }
    if str_eq(sub, "analyze") {
        if args.len() < 2 {
            return Err(CliError::AnalyzeNeedsPath);
        }
        let format = match flag_at(args, "--format", 1) {
            Some(f) => owned(f),
            None => owned("json"),
        };
        Ok(Command::Analyze { path: args[1].clone(), format })
    } else if str_eq(sub, "batch") {
        if args.len() < 2 {
            return Err(CliError::BatchNeedsPath);
        }
        match flag_at(args, "--output", 1) {
            Some(o) => Ok(Command::Batch { path: args[1].clone(), output: owned(o) }),
            None => Err(CliError::BatchNeedsOutput),
        }
    } else if str_eq(sub, "explain") {
        if args.len() < 2 {
            return Err(CliError::ExplainNeedsPath);
        }
        match flag_at(args, "--finding", 1) {
            Some(c) => Ok(Command::Explain { path: args[1].clone(), finding: owned(c) }),
            None => Err(CliError::ExplainNeedsFinding),
        }
    } else if str_eq(sub, "doctor") {
        Ok(Command::Doctor)
    } else {
        Err(CliError::UnknownSubcommand { name: args[0].clone() })
    }
}

/// How `analyze` prints its report.
#[derive(Debug, Clone, Copy, PartialEq, Eq, Structural)]
pub enum OutputFormat {
    /// Pretty-printed JSON.
    Json,
    /// A Markdown summary.
    Markdown,
}

/// The output format named by a `--format` value.
pub fn output_format(name: &str) -> (r: Result<OutputFormat, CliError>)
    ensures
        name@ == "json"@ <==> r == Ok::<OutputFormat, CliError>(OutputFormat::Json),
        name@ == "markdown"@ <==> r == Ok::<OutputFormat, CliError>(OutputFormat::Markdown),
        r matches Err(e) ==> (e matches CliError::UnknownFormat { format } && format@ == name@),
{
    proof {
        reveal_strlit("json");
        reveal_strlit("markdown");
        assert("json"@.len() != "markdown"@.len());
    }
    if str_eq(name, "json") {
        Ok(OutputFormat::Json)
    } else if str_eq(name, "markdown") {
        Ok(OutputFormat::Markdown)
    } else {
        Err(CliError::UnknownFormat { format: owned(name) })
    }
}

/// The message printed for a command-line error.
pub open spec fn message_text(e: CliError) -> Seq<char> {
    match e {
        CliError::MissingSubcommand => "expected a subcommand: analyze, batch, explain, or doctor"@,
        CliError::UnknownSubcommand { name } => "unknown subcommand '"@ + name@
            + "'; expected analyze, batch, explain, or doctor"@,
        CliError::AnalyzeNeedsPath => "analyze requires a structure file path"@,
        CliError::BatchNeedsPath => "batch requires a structures.jsonl path"@,
        CliError::BatchNeedsOutput => "batch requires --output <path>"@,
        CliError::ExplainNeedsPath => "explain requires a report file path"@,
        CliError::ExplainNeedsFinding => "explain requires --finding <CODE>"@,
        CliError::UnknownFormat { format } => "unknown --format '"@ + format@
            + "'; expected json or markdown"@,
        CliError::NoValidStructures { path, skipped } => "no valid structures found in "@ + path@
            + " ("@ + decimal_text(skipped) + " line(s) skipped)"@,
        CliError::NoSuchFinding { code, path } => "no finding with code '"@ + code@ + "' in "@
            + path@,
    }
}

impl CliError {
    /// The message printed for this error.
    pub fn message(&self) -> (m: String)
        ensures
            m@ == message_text(*self),
    {
        match self {
            CliError::MissingSubcommand => owned(
                "expected a subcommand: analyze, batch, explain, or doctor",
            ),
            CliError::UnknownSubcommand { name } => owned("unknown subcommand '").concat(
                name.as_str(),
            ).concat("'; expected analyze, batch, explain, or doctor"),
            CliError::AnalyzeNeedsPath => owned("analyze requires a structure file path"),
            CliError::BatchNeedsPath => owned("batch requires a structures.jsonl path"),
            CliError::BatchNeedsOutput => owned("batch requires --output <path>"),
            CliError::ExplainNeedsPath => owned("explain requires a report file path"),
            CliError::ExplainNeedsFinding => owned("explain requires --finding <CODE>"),
            CliError::UnknownFormat { format } => owned("unknown --format '").concat(
                format.as_str(),
            ).concat("'; expected json or markdown"),
            CliError::NoValidStructures { path, skipped } => {
                let count = decimal(*skipped);
                owned("no valid structures found in ").concat(path.as_str()).concat(" (").concat(
                    count.as_str(),
                ).concat(" line(s) skipped)")
            },
            CliError::NoSuchFinding { code, path } => owned("no finding with code '").concat(
                code.as_str(),
            ).concat("' in ").concat(path.as_str()),
        }
    }
}

/// Whether a batch run has anything to report: it fails only when no line
/// parsed and at least one line was skipped (an empty file is not an
/// error).
pub fn batch_outcome(path: &str, parsed: usize, skipped: usize) -> (r: Result<(), CliError>)
    ensures
        r is Err <==> (parsed == 0 && skipped > 0),
        r matches Err(e) ==> (e matches CliError::NoValidStructures { path: p, skipped: s } && p@
            == path@ && s == skipped),
{
    if parsed == 0 && skipped > 0 {
        Err(CliError::NoValidStructures { path: owned(path), skipped })
    } else {
        Ok(())
    }
}

/// The closing line of a batch run.
pub open spec fn batch_summary_text(reports: usize, output: Seq<char>, skipped: usize) -> Seq<char> {
    "wrote "@ + decimal_text(reports) + " report(s) to "@ + output + if skipped > 0 {
        " ("@ + decimal_text(skipped) + " line(s) skipped, see warnings above)"@
    } else {
        ""@
    }
}

/// The closing line of a batch run: how many reports went where, and how
/// many lines were skipped, if any.
pub fn batch_summary(reports: usize, output: &str, skipped: usize) -> (s: String)
    ensures
        s@ == batch_summary_text(reports, output@, skipped),
{
    let count = decimal(reports);
    let s = owned("wrote ").concat(count.as_str()).concat(" report(s) to ").concat(output);
    if skipped > 0 {
        let k = decimal(skipped);
        s.concat(" (").concat(k.as_str()).concat(" line(s) skipped, see warnings above)")
    } else {
        proof {
            reveal_strlit("");
            assert(s@ + ""@ =~= s@);
        }
        s
    }
}

/// The positions of the findings whose code string is `wanted`, in order.
pub open spec fn matching_positions(codes: Seq<FindingCode>, wanted: Seq<char>) -> Seq<usize>
    decreases codes.len(),
{
    if codes.len() == 0 {
        Seq::empty()
    } else {
        matching_positions(codes.drop_last(), wanted) + if code_str(codes.last()) == wanted {
            seq![(codes.len() - 1) as usize]
        } else {
            Seq::empty()
        }
    }
}

/// The positions of the findings `explain` prints: those whose code string
/// is `wanted`. None is an error naming the code and the report path.
pub fn select_findings(codes: &Vec<FindingCode>, wanted: &str, path: &str) -> (r: Result<
    Vec<usize>,
    CliError,
>)
    ensures
        r matches Ok(v) ==> v@ == matching_positions(codes@, wanted@) && v@.len() > 0,
        r is Err <==> matching_positions(codes@, wanted@).len() == 0,
        r matches Err(e) ==> (e matches CliError::NoSuchFinding { code, path: p } && code@ == wanted@
            && p@ == path@),
{
    let mut hits: Vec<usize> = Vec::new();
    let mut k: usize = 0;
    while k < codes.len()
        invariant
            k <= codes@.len(),
            hits@ == matching_positions(codes@.take(k as int), wanted@),
        decreases codes@.len() - k,
    {
        proof {
            assert(codes@.take(k + 1).drop_last() =~= codes@.take(k as int));
            assert(codes@.take(k + 1).last() == codes@[k as int]);
        }
        if str_eq(codes[k].as_str(), wanted) {
            hits.push(k);
        }
        assert(hits@ =~= matching_positions(codes@.take(k + 1), wanted@));
        k = k + 1;
    }
    assert(codes@.take(codes@.len() as int) =~= codes@);
    if hits.len() == 0 {
        Err(CliError::NoSuchFinding { code: owned(wanted), path: owned(path) })
    } else {
        Ok(hits)
    }
}

} // verus!
