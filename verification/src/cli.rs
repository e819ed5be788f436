//! The commands of the program: what is done for each, and what is printed.

use std::path::PathBuf;
use vstd::prelude::*;
use crate::batch::{
    detail_view, digits_end, id_at, ids_before, lemma_digits_end, lemma_no_ids_in_digits,
    listed_ids, path_stem, BatchOptions, BatchSummary,
};
use crate::compound::{image_streams, stream_at, Streams};
use crate::params::lookup;
use crate::schlib::{
    block_pairs, blocks_identity, component_count, component_result, components_result,
    law_lcsc_id_normal, lcsc_id, listed_names, optional, record_identities, schlib_image_result,
    SchlibModel,
};
use crate::text::{
    all_digits, decimal, decimal_text, distinct, is_digit, join_text, joined, law_distinct,
    lemma_split_nonempty, lower_text, lowercased, same_text, split, split_text, trim, trimmed, views,
};
use crate::wire::{blocks_result, first_pairs_result, BlockAt};

verus! {

/// What the program is asked to do.
#[derive(Debug)]
pub struct Cli {
    /// Show ready-to-run example commands
    pub prompt: bool,
    pub command: Option<Commands>,
}

#[derive(Debug)]
pub enum Commands {
    /// Search components by keyword
    Search { keyword: String, limit: usize },
    /// Search by keyword and download STEP by result index
    DownloadStep { keyword: String, index: usize, output: PathBuf, force: bool },
    /// Search by keyword and download OBJ/MTL by result index
    DownloadObj { keyword: String, index: usize, output: PathBuf, force: bool },
    /// Export EasyEDA symbol / footprint JSON sources only
    ExportSource { keyword: String, index: usize, output: PathBuf, force: bool },
    /// Export a schematic library (.SchLib)
    ExportSchlib {
        keyword: String,
        index: usize,
        output: PathBuf,
        lcsc_english: bool,
        force: bool,
    },
    /// Export a PCB footprint library (.PcbLib)
    ExportPcblib { keyword: String, index: usize, output: PathBuf, force: bool },
    /// Export an input bundle: sources + STEP + manifest
    Bundle { keyword: String, index: usize, output: PathBuf, force: bool },
    /// Batch export libraries from a text file of LCSC IDs
    Batch {
        input: PathBuf,
        output: PathBuf,
        schlib: bool,
        pcblib: bool,
        full: bool,
        merge: bool,
        append: bool,
        library_name: Option<String>,
        parallel: usize,
        continue_on_error: bool,
        lcsc_english: bool,
        force: bool,
    },
    /// Re-fetch and regenerate libraries from LCSC IDs stored in an existing .SchLib
    Refresh {
        schlib: PathBuf,
        output: Option<PathBuf>,
        mode: String,
        library_name: Option<String>,
        parallel: usize,
        lcsc_english: bool,
    },
}

/// What the program does.
#[derive(Debug)]
pub enum Task {
    /// It prints examples.
    ShowExamples,
    /// It prints its help.
    ShowHelp,
    /// It searches and prints what it finds.
    Search { keyword: String, limit: usize },
    /// It exports one component.
    Export(ExportTask),
    /// It exports a batch.
    Batch(BatchOptions),
    /// It exports again what is in a library.
    Refresh(RefreshTask),
}

/// The export of one component: the one at `index` of what a search finds.
#[derive(Debug)]
pub struct ExportTask {
    pub kind: ExportKind,
    pub keyword: String,
    pub index: usize,
    pub output: PathBuf,
    pub force: bool,
}

#[derive(Debug, Clone, Copy, PartialEq, Eq, Structural)]
pub enum ExportKind {
    Step,
    Obj,
    Source,
    Schlib { lcsc_english: bool },
    Pcblib,
    Bundle,
}

/// The renewal of a library.
#[derive(Debug)]
pub struct RefreshTask {
    pub schlib: PathBuf,
    pub output: Option<PathBuf>,
    pub mode: String,
    pub library_name: Option<String>,
    pub parallel: usize,
    pub lcsc_english: bool,
}

/// What a command comes to.
pub open spec fn task_of(command: Commands) -> Task {
    match command {
        Commands::Search { keyword, limit } => Task::Search { keyword, limit },
        Commands::DownloadStep { keyword, index, output, force } => Task::Export(
            ExportTask { kind: ExportKind::Step, keyword, index, output, force },
        ),
        Commands::DownloadObj { keyword, index, output, force } => Task::Export(
            ExportTask { kind: ExportKind::Obj, keyword, index, output, force },
        ),
        Commands::ExportSource { keyword, index, output, force } => Task::Export(
            ExportTask { kind: ExportKind::Source, keyword, index, output, force },
        ),
        Commands::ExportSchlib { keyword, index, output, lcsc_english, force } => Task::Export(
            ExportTask {
                kind: ExportKind::Schlib { lcsc_english },
                keyword,
                index,
                output,
                force,
            },
        ),
        Commands::ExportPcblib { keyword, index, output, force } => Task::Export(
            ExportTask { kind: ExportKind::Pcblib, keyword, index, output, force },
        ),
        Commands::Bundle { keyword, index, output, force } => Task::Export(
            ExportTask { kind: ExportKind::Bundle, keyword, index, output, force },
        ),
        Commands::Batch {
            input,
            output,
            schlib,
            pcblib,
            full,
            merge,
            append,
            library_name,
            parallel,
            continue_on_error,
            lcsc_english,
            force,
        } => Task::Batch(
            BatchOptions {
                input,
                output,
                schlib,
                pcblib,
                full,
                merge,
                append,
                library_name,
                parallel,
                continue_on_error,
                lcsc_english,
                force,
            },
        ),
        Commands::Refresh { schlib, output, mode, library_name, parallel, lcsc_english } =>
        Task::Refresh(
            RefreshTask { schlib, output, mode, library_name, parallel, lcsc_english },
        ),
    }
}

/// Examples come before any command, and without a command there is help.
pub open spec fn asked_task(cli: Cli) -> Task {
    if cli.prompt {
        Task::ShowExamples
    } else {
        match cli.command {
            Some(command) => task_of(command),
            None => Task::ShowHelp,
        }
    }
}

/// Decides what the program does.
pub fn choose_task(cli: Cli) -> (task: Task)
    ensures
        task == asked_task(cli),
{
    if cli.prompt {
        return Task::ShowExamples;
    }
    let command = match cli.command {
        Some(command) => command,
        None => {
            return Task::ShowHelp;
        },
    };
    match command {
        Commands::Search { keyword, limit } => Task::Search { keyword, limit },
        Commands::DownloadStep { keyword, index, output, force } => Task::Export(
            ExportTask { kind: ExportKind::Step, keyword, index, output, force },
        ),
        Commands::DownloadObj { keyword, index, output, force } => Task::Export(
            ExportTask { kind: ExportKind::Obj, keyword, index, output, force },
        ),
        Commands::ExportSource { keyword, index, output, force } => Task::Export(
            ExportTask { kind: ExportKind::Source, keyword, index, output, force },
        ),
        Commands::ExportSchlib { keyword, index, output, lcsc_english, force } => Task::Export(
            ExportTask {
                kind: ExportKind::Schlib { lcsc_english },
                keyword,
                index,
                output,
                force,
            },
        ),
        Commands::ExportPcblib { keyword, index, output, force } => Task::Export(
            ExportTask { kind: ExportKind::Pcblib, keyword, index, output, force },
        ),
        Commands::Bundle { keyword, index, output, force } => Task::Export(
            ExportTask { kind: ExportKind::Bundle, keyword, index, output, force },
        ),
        Commands::Batch {
            input,
            output,
            schlib,
            pcblib,
            full,
            merge,
            append,
            library_name,
            parallel,
            continue_on_error,
            lcsc_english,
            force,
        } => Task::Batch(
            BatchOptions {
                input,
                output,
                schlib,
                pcblib,
                full,
                merge,
                append,
                library_name,
                parallel,
                continue_on_error,
                lcsc_english,
                force,
            },
        ),
        Commands::Refresh { schlib, output, mode, library_name, parallel, lcsc_english } =>
        Task::Refresh(
            RefreshTask { schlib, output, mode, library_name, parallel, lcsc_english },
        ),
    }
}

// Examples

/// The name that the program goes by, unless it is blank.
pub open spec fn own_name(name: Seq<char>) -> Seq<char> {
    if trim(name).len() == 0 {
        "npnp"@
    } else {
        trim(name)
    }
}

/// The name of the program, out of the stem of the file that it is in. What
/// stands before a backslash is a directory.
pub open spec fn invocation_name(stem: Option<Seq<char>>) -> Seq<char> {
    match stem {
        Some(stem) => own_name(split(stem, '\\').last()),
        None => "npnp"@,
    }
}

fn own_name_text(name: &str) -> (r: String)
    ensures
        r@ == own_name(name@),
{
    let bare = trimmed(name);
    if bare.as_str().is_empty() {
        "npnp".to_owned()
    } else {
        bare
    }
}

pub fn invocation_name_for(stem: Option<&str>) -> (r: String)
    ensures
        r@ == invocation_name(detail_view(stem)),
{
    match stem {
        Some(stem) => {
            let pieces = split_text(stem, '\\');
            proof {
                lemma_split_nonempty(stem@, '\\');
                assert(views(pieces@).len() == pieces@.len());
                assert(views(pieces@).last() == pieces@.last()@);
            }
            own_name_text(pieces[pieces.len() - 1].as_str())
        },
        None => "npnp".to_owned(),
    }
}

/// The name that the program is called by, where `raw` is the file that it is in.
pub fn display_invocation_name(raw: &PathBuf) -> (r: String)
    ensures
        exists|stem: Option<Seq<char>>| r@ == #[trigger] invocation_name(stem),
{
    let stem = path_stem(raw);
    let text = match &stem {
        Some(stem) => Some(stem.as_str()),
        None => None,
    };
    let r = invocation_name_for(text);
    assert(r@ == invocation_name(detail_view(text)));
    r
}

/// The lines of examples, for a program of the given name.
pub open spec fn example_lines(command: Seq<char>) -> Seq<Seq<char>> {
    let start = "  "@ + command;
    seq![
        "Normalize Pin Net Pad (npnp) ready-to-run commands:"@,
        ""@,
        "Search a component"@,
        start + " search C2040 --limit 5"@,
        ""@,
        "Export one schematic library"@,
        start + " export-schlib C2040 --index 1 --output schlib --force"@,
        ""@,
        "Export one PCB library"@,
        start + " export-pcblib C2040 --index 1 --output pcblib --force"@,
        ""@,
        "Export EasyEDA source JSON plus STEP bundle"@,
        start + " bundle C2040 --index 1 --output bundle --force"@,
        ""@,
        "Batch export both libraries from ids.txt"@,
        start
            + " batch --input ids.txt --output generated\\quick_check --full --force --continue-on-error"@,
        ""@,
        "Merge both libraries into one pair of outputs"@,
        start
            + " batch --input ids.txt --output generated\\merged --merge --library-name MyLib --full --continue-on-error"@,
        ""@,
        "Append new parts into an existing merged library"@,
        start
            + " batch --input new_ids.txt --output generated\\merged --merge --append --library-name MyLib --full --continue-on-error"@,
        ""@,
        "Refresh an existing library by re-fetching all components from LCSC"@,
        start + " refresh --schlib generated\\merged\\MyLib.SchLib"@,
        ""@,
    ]
}

fn push_example(lines: &mut Vec<String>, title: &str, command: &str, arguments: &str)
    ensures
        views(final(lines)@) == views(old(lines)@) + seq![
            title@,
            "  "@ + command@ + arguments@,
            ""@,
        ],
{
    let ghost before = views(lines@);
    let mut line = "  ".to_owned();
    line.append(command);
    line.append(arguments);
    lines.push(title.to_owned());
    lines.push(line);
    lines.push("".to_owned());
    assert(views(lines@) =~= before + seq![title@, "  "@ + command@ + arguments@, ""@]);
}

/// Ready-to-run commands, for a program that is called by a name.
pub fn prompt_examples(invoked_as: &str) -> (r: String)
    ensures
        r@ == joined(example_lines(own_name(invoked_as@)), "\n"@),
{
    let name = own_name_text(invoked_as);
    let command = name.as_str();
    let mut lines: Vec<String> = Vec::new();
    lines.push("Normalize Pin Net Pad (npnp) ready-to-run commands:".to_owned());
    lines.push("".to_owned());
    assert(views(lines@) =~= seq!["Normalize Pin Net Pad (npnp) ready-to-run commands:"@, ""@]);
    push_example(&mut lines, "Search a component", command, " search C2040 --limit 5");
    push_example(
        &mut lines,
        "Export one schematic library",
        command,
        " export-schlib C2040 --index 1 --output schlib --force",
    );
    push_example(
        &mut lines,
        "Export one PCB library",
        command,
        " export-pcblib C2040 --index 1 --output pcblib --force",
    );
    push_example(
        &mut lines,
        "Export EasyEDA source JSON plus STEP bundle",
        command,
        " bundle C2040 --index 1 --output bundle --force",
    );
    push_example(
        &mut lines,
        "Batch export both libraries from ids.txt",
        command,
        " batch --input ids.txt --output generated\\quick_check --full --force --continue-on-error",
    );
    push_example(
        &mut lines,
        "Merge both libraries into one pair of outputs",
        command,
        " batch --input ids.txt --output generated\\merged --merge --library-name MyLib --full --continue-on-error",
    );
    push_example(
        &mut lines,
        "Append new parts into an existing merged library",
        command,
        " batch --input new_ids.txt --output generated\\merged --merge --append --library-name MyLib --full --continue-on-error",
    );
    push_example(
        &mut lines,
        "Refresh an existing library by re-fetching all components from LCSC",
        command,
        " refresh --schlib generated\\merged\\MyLib.SchLib",
    );
    assert(views(lines@) =~= example_lines(command@));
    join_text(&lines, "\n")
}

// Searching

/// How many of the results are shown.
pub open spec fn shown(found: nat, limit: nat) -> nat {
    if found < limit {
        found
    } else {
        limit
    }
}

/// The line above the results.
pub open spec fn heading(found: nat, limit: nat) -> Seq<char> {
    if found == 0 {
        "No results."@
    } else {
        "Found "@ + decimal(found) + " result(s), showing first "@ + decimal(shown(found, limit))
            + ":"@
    }
}

/// The number of results to show, and the line above them.
pub fn search_heading(found: usize, limit: usize) -> (r: (usize, String))
    ensures
        r.0 == shown(found as nat, limit as nat),
        r.1@ == heading(found as nat, limit as nat),
{
    if found == 0 {
        return (0, "No results.".to_owned());
    }
    let count: usize = if found < limit {
        found
    } else {
        limit
    };
    let mut text = "Found ".to_owned();
    text.append(decimal_text(found as u128).as_str());
    text.append(" result(s), showing first ");
    text.append(decimal_text(count as u128).as_str());
    text.append(":");
    (count, text)
}

/// A number, at the right end of three places or more.
pub open spec fn aligned(n: nat) -> Seq<char> {
    if decimal(n).len() == 1 {
        "  "@ + decimal(n)
    } else if decimal(n).len() == 2 {
        " "@ + decimal(n)
    } else {
        decimal(n)
    }
}

fn aligned_text(n: usize) -> (r: String)
    ensures
        r@ == aligned(n as nat),
{
    let digits = decimal_text(n as u128);
    let count: usize = crate::text::chars_of(digits.as_str()).len();
    let mut text = if count == 1 {
        "  ".to_owned()
    } else if count == 2 {
        " ".to_owned()
    } else {
        "".to_owned()
    };
    text.append(digits.as_str());
    proof {
        reveal_strlit("");
        assert(text@ =~= aligned(n as nat));
    }
    text
}

/// The line for one result.
pub open spec fn result_line(
    index: nat,
    name: Seq<char>,
    id: Option<Seq<char>>,
    manufacturer: Seq<char>,
    has_model: bool,
) -> Seq<char> {
    "["@ + aligned(index) + "] "@ + name + " | LCSC ID: "@ + (match id {
        Some(id) => id,
        None => "-"@,
    }) + " | Manufacturer: "@ + (if manufacturer.len() == 0 {
        "-"@
    } else {
        manufacturer
    }) + " | 3D model: "@ + (if has_model {
        "yes"@
    } else {
        "no"@
    })
}

pub fn search_row(
    index: usize,
    name: &str,
    id: Option<&str>,
    manufacturer: &str,
    has_model: bool,
) -> (r: String)
    ensures
        r@ == result_line(index as nat, name@, detail_view(id), manufacturer@, has_model),
{
    let mut text = "[".to_owned();
    text.append(aligned_text(index).as_str());
    text.append("] ");
    text.append(name);
    text.append(" | LCSC ID: ");
    match id {
        Some(id) => {
            text.append(id);
        },
        None => {
            text.append("-");
        },
    }
    text.append(" | Manufacturer: ");
    if manufacturer.is_empty() {
        text.append("-");
    } else {
        text.append(manufacturer);
    }
    text.append(" | 3D model: ");
    if has_model {
        text.append("yes");
    } else {
        text.append("no");
    }
    text
}

// Summaries

/// What is said at the end of a batch.
pub open spec fn batch_text(summary: BatchSummary) -> Seq<char> {
    "Batch export complete. Total: "@ + decimal(summary.total as nat) + " | Skipped: "@ + decimal(
        summary.skipped as nat,
    ) + " | Success: "@ + decimal(summary.success as nat) + " | Failed: "@ + decimal(
        summary.failed as nat,
    )
}

pub fn batch_message(summary: &BatchSummary) -> (r: String)
    ensures
        r@ == batch_text(*summary),
{
    let mut text = "Batch export complete. Total: ".to_owned();
    text.append(decimal_text(summary.total as u128).as_str());
    text.append(" | Skipped: ");
    text.append(decimal_text(summary.skipped as u128).as_str());
    text.append(" | Success: ");
    text.append(decimal_text(summary.success as u128).as_str());
    text.append(" | Failed: ");
    text.append(decimal_text(summary.failed as u128).as_str());
    text
}

/// What is said when a library has been renewed.
pub open spec fn refresh_text(summary: BatchSummary) -> Seq<char> {
    "Refresh complete. Total: "@ + decimal(summary.total as nat) + " | Success: "@ + decimal(
        summary.success as nat,
    ) + " | Failed: "@ + decimal(summary.failed as nat)
}

pub fn refresh_message(summary: &BatchSummary) -> (r: String)
    ensures
        r@ == refresh_text(*summary),
{
    let mut text = "Refresh complete. Total: ".to_owned();
    text.append(decimal_text(summary.total as u128).as_str());
    text.append(" | Success: ");
    text.append(decimal_text(summary.success as u128).as_str());
    text.append(" | Failed: ");
    text.append(decimal_text(summary.failed as u128).as_str());
    text
}

/// The line that names the components that failed, where there are any.
pub fn failed_message(summary: &BatchSummary) -> (r: Option<String>)
    ensures
        optional(r) == if summary.failed_ids@.len() == 0 {
            None::<Seq<char>>
        } else {
            Some("Failed IDs: "@ + joined(views(summary.failed_ids@), ", "@))
        },
{
    if summary.failed_ids.len() == 0 {
        return None;
    }
    let mut text = "Failed IDs: ".to_owned();
    text.append(join_text(&summary.failed_ids, ", ").as_str());
    Some(text)
}

// Renewing a library

/// The targets that a mode stands for: schematics alone, footprints alone, or
/// in all other cases both.
pub open spec fn mode_targets(mode: Seq<char>) -> (bool, bool, bool) {
    let mode = lower_text(trim(mode));
    if mode == "schlib"@ {
        (true, false, false)
    } else if mode == "pcblib"@ {
        (false, true, false)
    } else {
        (false, false, true)
    }
}

pub fn refresh_targets(mode: &str) -> (r: (bool, bool, bool))
    ensures
        r == mode_targets(mode@),
{
    let bare = trimmed(mode);
    let mode = lowercased(bare.as_str());
    if same_text(mode.as_str(), "schlib") {
        (true, false, false)
    } else if same_text(mode.as_str(), "pcblib") {
        (false, true, false)
    } else {
        (false, false, true)
    }
}

/// The name of a library that is renewed: the one that was asked for, or else the
/// stem of its file.
pub open spec fn renewed_name(library_name: Option<String>, stem: Option<String>) -> Option<String> {
    if library_name is Some {
        library_name
    } else {
        stem
    }
}

/// The batch that renews a library: merged, with what fails left out, and
/// nothing that was done before spared.
pub fn refresh_options(
    input: PathBuf,
    output: PathBuf,
    mode: &str,
    library_name: Option<String>,
    stem: Option<String>,
    parallel: usize,
    lcsc_english: bool,
) -> (r: BatchOptions)
    ensures
        r.input == input,
        r.output == output,
        (r.schlib, r.pcblib, r.full) == mode_targets(mode@),
        r.merge && !r.append && r.continue_on_error && r.force,
        r.library_name == renewed_name(library_name, stem),
        r.parallel == parallel,
        r.lcsc_english == lcsc_english,
{
    let (schlib, pcblib, full) = refresh_targets(mode);
    BatchOptions {
        input,
        output,
        schlib,
        pcblib,
        full,
        merge: true,
        append: false,
        library_name: match library_name {
            Some(name) => Some(name),
            None => stem,
        },
        parallel,
        continue_on_error: true,
        lcsc_english,
        force: true,
    }
}

/// The input of the batch that renews a library.
pub fn refresh_input(ids: &Vec<String>) -> (r: String)
    ensures
        r@ == joined(views(ids@), "\n"@),
{
    join_text(ids, "\n")
}

/// Whether `id` is a part number in its normal form.
pub open spec fn is_normal_id(id: Seq<char>) -> bool {
    lcsc_id(id) == Some(id)
}

proof fn lemma_normal_id(id: Seq<char>)
    requires
        is_normal_id(id),
    ensures
        id.len() >= 2,
        id[0] == 'C',
        all_digits(id.skip(1)),
{
    let bare = trim(id);
    assert(id =~= seq!['C'] + bare.skip(1));
    assert(id.skip(1) =~= bare.skip(1));
}

/// What follows on another line does not change where digits end.
proof fn lemma_digits_end_stays(a: Seq<char>, rest: Seq<char>, at: int)
    requires
        0 <= at <= a.len(),
        rest.len() > 0,
        rest[0] == '\n',
    ensures
        digits_end(a + rest, at) == digits_end(a, at),
    decreases a.len() - at,
{
    let whole = a + rest;
    if at < a.len() {
        assert(whole[at] == a[at]);
        if is_digit(a[at]) {
            lemma_digits_end_stays(a, rest, at + 1);
        }
    } else {
        assert(whole[at] == '\n');
    }
}

/// What follows on another line does not change the part numbers before it.
proof fn lemma_ids_stay(a: Seq<char>, rest: Seq<char>, n: int)
    requires
        0 <= n <= a.len(),
        rest.len() > 0,
        rest[0] == '\n',
    ensures
        ids_before(a + rest, n) == ids_before(a, n),
    decreases n,
{
    if n > 0 {
        lemma_ids_stay(a, rest, n - 1);
        let whole = a + rest;
        assert(whole[n - 1] == a[n - 1]);
        if n < a.len() {
            assert(whole[n] == a[n]);
        } else {
            assert(whole[n] == '\n');
        }
        lemma_digits_end_stays(a, rest, n);
        lemma_digits_end(a, n);
        assert(whole.subrange(n, digits_end(whole, n)) =~= a.subrange(n, digits_end(a, n)));
        assert(id_at(whole, n - 1) == id_at(a, n - 1));
    }
}

/// A part number at the end of a text is found behind those before it.
proof fn lemma_id_at_end(whole: Seq<char>, start: int, id: Seq<char>)
    requires
        0 <= start,
        whole.len() == start + id.len(),
        whole.skip(start) == id,
        is_normal_id(id),
    ensures
        ids_before(whole, whole.len() as int) == ids_before(whole, start).push(id),
{
    lemma_normal_id(id);
    let digits = id.skip(1);
    assert(whole[start] == id[0]);
    assert forall|i: int| start + 1 <= i < whole.len() implies is_digit(#[trigger] whole[i]) by {
        assert(whole[i] == whole.skip(start)[i - start]);
        assert(id[i - start] == digits[i - start - 1]);
    }
    lemma_digits_end(whole, start + 1);
    assert(digits_end(whole, start + 1) == whole.len());
    assert(whole.subrange(start + 1, whole.len() as int) =~= digits);
    assert(seq!['C'] + digits =~= id);
    assert(id_at(whole, start) == Some(id));
    lemma_no_ids_in_digits(whole, start + 1, whole.len() as int);
}

proof fn lemma_joined_ids(ids: Seq<Seq<char>>)
    requires
        forall|i: int| 0 <= i < ids.len() ==> is_normal_id(#[trigger] ids[i]),
    ensures
        ({
            let text = joined(ids, "\n"@);
            ids_before(text, text.len() as int) == ids
        }),
    decreases ids.len(),
{
    reveal_strlit("\n");
    let text = joined(ids, "\n"@);
    if ids.len() == 0 {
        assert(ids_before(text, 0) =~= ids);
    } else if ids.len() == 1 {
        assert(text.skip(0) =~= ids[0]);
        lemma_id_at_end(text, 0, ids[0]);
        assert(ids_before(text, text.len() as int) =~= ids);
    } else {
        let init = ids.drop_last();
        let id = ids.last();
        assert forall|i: int| 0 <= i < init.len() implies is_normal_id(#[trigger] init[i]) by {
            assert(init[i] == ids[i]);
        }
        lemma_joined_ids(init);
        let a = joined(init, "\n"@);
        let rest = "\n"@ + id;
        let start = a.len() + 1;
        assert(text =~= a + rest);
        lemma_ids_stay(a, rest, a.len() as int);
        assert(text[a.len() as int] == '\n');
        assert(id_at(text, a.len() as int) is None);
        assert(ids_before(text, start as int) == ids_before(text, a.len() as int));
        assert(text.skip(start as int) =~= id);
        lemma_id_at_end(text, start as int, id);
        assert(ids_before(text, text.len() as int) =~= ids);
    }
}

proof fn lemma_distinct_stays(ids: Seq<Seq<char>>)
    requires
        ids.no_duplicates(),
    ensures
        distinct(ids) == ids,
    decreases ids.len(),
{
    if ids.len() > 0 {
        let init = ids.drop_last();
        assert(init.no_duplicates());
        lemma_distinct_stays(init);
        if init.contains(ids.last()) {
            let i = choose|i: int| 0 <= i < init.len() && init[i] == ids.last();
            assert(ids[i] == ids[ids.len() - 1]);
        }
        assert(distinct(ids) =~= ids);
    } else {
        assert(distinct(ids) =~= ids);
    }
}

/// The batch that renews a library goes through exactly the part numbers that
/// the library carries, in their order: different part numbers in their normal
/// form, put down as its input, are read back as they are.
pub proof fn law_refresh_input(ids: Seq<Seq<char>>)
    requires
        ids.no_duplicates(),
        forall|i: int| 0 <= i < ids.len() ==> is_normal_id(#[trigger] ids[i]),
    ensures
        listed_ids(joined(ids, "\n"@)) == ids,
{
    lemma_joined_ids(ids);
    lemma_distinct_stays(ids);
}

proof fn lemma_block_identity_normal(blocks: Seq<BlockAt>)
    ensures
        blocks_identity(blocks) matches Some(id) ==> is_normal_id(id),
    decreases blocks.len(),
{
    if blocks.len() > 0 {
        lemma_block_identity_normal(blocks.drop_last());
        if let (Some(_), Some(value)) = (
            lookup(block_pairs(blocks.last()), "NAME"@),
            lookup(block_pairs(blocks.last()), "TEXT"@),
        ) {
            law_lcsc_id_normal(value);
        }
    }
}

proof fn lemma_component_identities_normal(streams: Streams, names: Seq<Seq<char>>, n: int)
    ensures
        components_result(streams, names, n) matches Ok(records) ==> forall|i: int|
            0 <= i < records.len() ==> ((#[trigger] records[i]).identity matches Some(id)
                ==> is_normal_id(id)),
    decreases n,
{
    if n > 0 {
        lemma_component_identities_normal(streams, names, n - 1);
        if let (Ok(before), Ok(record)) = (
            components_result(streams, names, n - 1),
            component_result(streams, names, n - 1),
        ) {
            match blocks_result(record.data, 0, "SchLib component data"@) {
                Ok(blocks) => {
                    lemma_block_identity_normal(blocks);
                },
                Err(_) => {},
            }
            let records = before.push(record);
            assert forall|i: int| 0 <= i < records.len() implies ((
            #[trigger] records[i]).identity matches Some(id) ==> is_normal_id(id)) by {
                if i < before.len() {
                    assert(records[i] == before[i]);
                }
            }
        }
    }
}

proof fn lemma_identities_from(records: Seq<SchlibModel>, k: int)
    requires
        0 <= k < record_identities(records).len(),
    ensures
        exists|i: int|
            0 <= i < records.len() && (#[trigger] records[i]).identity == Some(
                record_identities(records)[k],
            ),
    decreases records.len(),
{
    if records.len() > 0 {
        let init = records.drop_last();
        if k < record_identities(init).len() {
            lemma_identities_from(init, k);
            let i = choose|i: int|
                0 <= i < init.len() && (#[trigger] init[i]).identity == Some(
                    record_identities(init)[k],
                );
            assert(records[i].identity == Some(record_identities(records)[k]));
        } else {
            assert(records[records.len() - 1].identity == Some(record_identities(records)[k]));
        }
    }
}

/// Renewing a library asks for each part number that it carries, once, and for
/// nothing else.
pub proof fn law_refresh_lists_library(image: Seq<u8>)
    ensures
        schlib_image_result(image) matches Ok(records) ==> {
            let ids = distinct(record_identities(records));
            listed_ids(joined(ids, "\n"@)) == ids
        },
{
    if let (Some(streams), Ok(records)) = (image_streams(image), schlib_image_result(image)) {
        let found = record_identities(records);
        let ids = distinct(found);
        law_distinct(found);
        if let Some(header) = stream_at(streams, "/FileHeader"@) {
            if let Ok(pairs) = first_pairs_result(header, "SchLib file header"@) {
                let names = listed_names(pairs, component_count(pairs));
                lemma_component_identities_normal(streams, names, names.len() as int);
            }
        }
        assert forall|i: int| 0 <= i < ids.len() implies is_normal_id(#[trigger] ids[i]) by {
            assert(ids.contains(ids[i]));
            let k = choose|k: int| 0 <= k < found.len() && found[k] == ids[i];
            lemma_identities_from(records, k);
        }
        law_refresh_input(ids);
    }
}

} // verus!
