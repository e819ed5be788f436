//! What the commands of the program mean, whatever their arguments are.

use vstd::prelude::*;
use crate::batch::BatchSummary;
use crate::cli::{
    aligned, asked_task, batch_text, example_lines, heading, invocation_name, mode_targets, own_name,
    refresh_text, renewed_name, result_line, shown, Cli, Commands, Task,
};
use crate::text::{
    decimal, has_suffix, lemma_decimal, lemma_split_join, lemma_split_without, lower_text,
    split, trim,
};

verus! {

/// Examples are shown exactly where they are asked for, whatever command stands
/// beside the wish, and help exactly where neither they nor a command are.
pub proof fn law_examples_and_help(cli: Cli)
    ensures
        asked_task(cli) is ShowExamples <==> cli.prompt,
        asked_task(cli) is ShowHelp <==> !cli.prompt && cli.command is None,
{
}

/// Each command that exports leads to an export of its own kind, and no other
/// command does.
pub proof fn law_export_kinds(cli: Cli, command: Commands)
    requires
        !cli.prompt,
        cli.command == Some(command),
    ensures
        command is DownloadStep <==> (asked_task(cli) matches Task::Export(t) && t.kind is Step),
        command is DownloadObj <==> (asked_task(cli) matches Task::Export(t) && t.kind is Obj),
        command is ExportSource <==> (asked_task(cli) matches Task::Export(t) && t.kind is Source),
        command is ExportSchlib <==> (asked_task(cli) matches Task::Export(t) && t.kind is Schlib),
        command is ExportPcblib <==> (asked_task(cli) matches Task::Export(t) && t.kind is Pcblib),
        command is Bundle <==> (asked_task(cli) matches Task::Export(t) && t.kind is Bundle),
        command is Search <==> asked_task(cli) is Search,
        command is Batch <==> asked_task(cli) is Batch,
        command is Refresh <==> asked_task(cli) is Refresh,
{
}

/// Two different commands never lead to exports of the same kind.
pub proof fn law_exports_differ(a: Cli, b: Cli)
    requires
        !a.prompt,
        !b.prompt,
        asked_task(a) is Export,
        asked_task(b) is Export,
        asked_task(a)->Export_0.kind == asked_task(b)->Export_0.kind,
    ensures
        a.command matches Some(x) && b.command matches Some(y) && {
            &&& x is DownloadStep <==> y is DownloadStep
            &&& x is DownloadObj <==> y is DownloadObj
            &&& x is ExportSource <==> y is ExportSource
            &&& x is ExportSchlib <==> y is ExportSchlib
            &&& x is ExportPcblib <==> y is ExportPcblib
            &&& x is Bundle <==> y is Bundle
        },
{
}

/// A task tells the command that it comes from: where two requests for a command
/// lead to the same task, they are for the same command with the same arguments.
pub proof fn law_tasks_tell_commands(a: Cli, b: Cli)
    requires
        !a.prompt,
        !b.prompt,
        asked_task(a) == asked_task(b),
    ensures
        a.command == b.command,
{
}

/// An export is of what its command searches for, at the place, into the
/// directory and with the leave to overwrite that the command gives.
pub proof fn law_export_arguments(cli: Cli)
    requires
        !cli.prompt,
    ensures
        cli.command matches Some(Commands::DownloadStep { keyword, index, output, force })
            ==> asked_task(cli) matches Task::Export(t) && t.keyword == keyword && t.index == index
            && t.output == output && t.force == force,
        cli.command matches Some(Commands::DownloadObj { keyword, index, output, force })
            ==> asked_task(cli) matches Task::Export(t) && t.keyword == keyword && t.index == index
            && t.output == output && t.force == force,
        cli.command matches Some(Commands::ExportSource { keyword, index, output, force })
            ==> asked_task(cli) matches Task::Export(t) && t.keyword == keyword && t.index == index
            && t.output == output && t.force == force,
        cli.command matches Some(
            Commands::ExportSchlib { keyword, index, output, lcsc_english, force },
        ) ==> asked_task(cli) matches Task::Export(t) && t.keyword == keyword && t.index == index
            && t.output == output && t.force == force && t.kind->lcsc_english == lcsc_english,
        cli.command matches Some(Commands::ExportPcblib { keyword, index, output, force })
            ==> asked_task(cli) matches Task::Export(t) && t.keyword == keyword && t.index == index
            && t.output == output && t.force == force,
        cli.command matches Some(Commands::Bundle { keyword, index, output, force })
            ==> asked_task(cli) matches Task::Export(t) && t.keyword == keyword && t.index == index
            && t.output == output && t.force == force,
        cli.command matches Some(Commands::Search { keyword, limit }) ==> asked_task(
            cli,
        ) matches Task::Search { keyword: k, limit: l } && k == keyword && l == limit,
{
}

/// A batch and a renewal are done with the options that their command gives,
/// each in its own place.
pub proof fn law_batch_arguments(cli: Cli, command: Commands)
    requires
        !cli.prompt,
        cli.command == Some(command),
    ensures
        command is Batch ==> (asked_task(cli) matches Task::Batch(options) && {
            &&& options.input == command->input
            &&& options.output == command->Batch_output
            &&& options.schlib == command->Batch_schlib
            &&& options.pcblib == command->pcblib
            &&& options.full == command->full
            &&& options.merge == command->merge
            &&& options.append == command->append
            &&& options.library_name == command->Batch_library_name
            &&& options.parallel == command->Batch_parallel
            &&& options.continue_on_error == command->continue_on_error
            &&& options.lcsc_english == command->Batch_lcsc_english
            &&& options.force == command->Batch_force
        }),
        command is Refresh ==> (asked_task(cli) matches Task::Refresh(task) && {
            &&& task.schlib == command->Refresh_schlib
            &&& task.output == command->Refresh_output
            &&& task.mode == command->mode
            &&& task.library_name == command->Refresh_library_name
            &&& task.parallel == command->Refresh_parallel
            &&& task.lcsc_english == command->Refresh_lcsc_english
        }),
{
}

/// The program goes by the last piece of its stem that backslashes part, white
/// space around it aside. Where that piece is blank, or there is no stem, it goes
/// by a name of its own.
pub proof fn law_invocation_name(directory: Seq<char>, name: Seq<char>)
    requires
        !name.contains('\\'),
    ensures
        invocation_name(Some(directory + seq!['\\'] + name)) == invocation_name(Some(name)),
        trim(name).len() > 0 ==> invocation_name(Some(name)) == trim(name),
        trim(name).len() == 0 ==> invocation_name(Some(name)) == invocation_name(None),
        invocation_name(None).len() > 0,
{
    lemma_split_join(directory, '\\', name);
    lemma_split_without(name, '\\');
    let before = split(directory, '\\');
    assert((before + seq![name]).last() == name);
    assert(seq![name].last() == name);
    reveal_strlit("npnp");
}

/// The examples show what to type after the name of the program: in each group of
/// three lines the second starts with that name, and the third is empty.
pub proof fn law_examples_name_program(name: Seq<char>, group: int)
    requires
        0 <= group < 8,
    ensures
        ({
            let lines = example_lines(own_name(name));
            let start = "  "@ + own_name(name) + " "@;
            &&& lines.len() == 2 + 3 * 8
            &&& start.is_prefix_of(lines[2 + 3 * group + 1])
            &&& lines[2 + 3 * group + 2] == ""@
            &&& lines[2 + 3 * group].len() > 0
        }),
        trim(name).len() > 0 ==> own_name(name) == trim(name),
        own_name(name).len() > 0,
{
    reveal_strlit("npnp");
    reveal_strlit(" ");
    reveal_strlit("  ");
    reveal_strlit("");
    let command = own_name(name);
    reveal_strlit(" search C2040 --limit 5");
    reveal_strlit(" export-schlib C2040 --index 1 --output schlib --force");
    reveal_strlit(" export-pcblib C2040 --index 1 --output pcblib --force");
    reveal_strlit(" bundle C2040 --index 1 --output bundle --force");
    reveal_strlit(
        " batch --input ids.txt --output generated\\quick_check --full --force --continue-on-error",
    );
    reveal_strlit(
        " batch --input ids.txt --output generated\\merged --merge --library-name MyLib --full --continue-on-error",
    );
    reveal_strlit(
        " batch --input new_ids.txt --output generated\\merged --merge --append --library-name MyLib --full --continue-on-error",
    );
    reveal_strlit(" refresh --schlib generated\\merged\\MyLib.SchLib");
    reveal_strlit("Search a component");
    reveal_strlit("Export one schematic library");
    reveal_strlit("Export one PCB library");
    reveal_strlit("Export EasyEDA source JSON plus STEP bundle");
    reveal_strlit("Batch export both libraries from ids.txt");
    reveal_strlit("Merge both libraries into one pair of outputs");
    reveal_strlit("Append new parts into an existing merged library");
    reveal_strlit("Refresh an existing library by re-fetching all components from LCSC");
    let lines = example_lines(command);
    let line = lines[2 + 3 * group + 1];
    let start = "  "@ + command + " "@;
    assert(line.take(start.len() as int) =~= start);
    assert(group == 0 || group == 1 || group == 2 || group == 3 || group == 4 || group == 5
        || group == 6 || group == 7);
}

/// No more results are shown than there are and than were asked for, and all of
/// the one or of the other.
pub proof fn law_shown(found: nat, limit: nat)
    ensures
        shown(found, limit) <= found,
        shown(found, limit) <= limit,
        shown(found, limit) == found || shown(found, limit) == limit,
{
}

/// A place number takes up three characters where its digits leave room, and all
/// that stands before the digits are spaces.
pub proof fn law_aligned(n: nat)
    ensures
        aligned(n).len() == if decimal(n).len() < 3 {
            3
        } else {
            decimal(n).len()
        },
        has_suffix(aligned(n), decimal(n)),
        forall|i: int|
            0 <= i < aligned(n).len() - decimal(n).len() ==> #[trigger] aligned(n)[i] == ' ',
{
    reveal_strlit("  ");
    reveal_strlit(" ");
    lemma_decimal(n);
    let k = aligned(n).len() - decimal(n).len();
    assert(aligned(n).skip(k) =~= decimal(n));
}

/// The line of a result opens with its place in brackets and its name, and closes
/// with whether it has a model.
pub proof fn law_result_line(
    index: nat,
    name: Seq<char>,
    id: Option<Seq<char>>,
    manufacturer: Seq<char>,
    has_model: bool,
)
    ensures
        (seq!['['] + aligned(index) + seq![']', ' '] + name + seq![' ', '|']).is_prefix_of(
            result_line(index, name, id, manufacturer, has_model),
        ),
        has_suffix(result_line(index, name, id, manufacturer, has_model), seq!['y', 'e', 's'])
            <==> has_model,
        has_suffix(result_line(index, name, id, manufacturer, has_model), seq!['n', 'o'])
            <==> !has_model,
{
    reveal_strlit("[");
    reveal_strlit("] ");
    reveal_strlit(" | LCSC ID: ");
    reveal_strlit(" | Manufacturer: ");
    reveal_strlit(" | 3D model: ");
    reveal_strlit("yes");
    reveal_strlit("no");
    let line = result_line(index, name, id, manufacturer, has_model);
    let start = seq!['['] + aligned(index) + seq![']', ' '] + name + seq![' ', '|'];
    assert(line.take(start.len() as int) =~= start);
    let n = line.len() as int;
    if has_model {
        assert(line.skip(n - 3) =~= seq!['y', 'e', 's']);
        assert(line[n - 1] == 's');
        if has_suffix(line, seq!['n', 'o']) {
            assert(line.skip(n - 2)[1] == 'o');
        }
    } else {
        assert(line.skip(n - 2) =~= seq!['n', 'o']);
        assert(line[n - 1] == 'o');
        if has_suffix(line, seq!['y', 'e', 's']) {
            assert(line.skip(n - 3)[2] == 's');
        }
    }
}

/// A mode stands for schematics alone or for footprints alone where it is their
/// word, white space and case aside, and for both in every other case. Exactly one
/// of the three choices is made.
pub proof fn law_mode_targets(mode: Seq<char>)
    ensures
        lower_text(trim(mode)) == "schlib"@ <==> mode_targets(mode).0,
        lower_text(trim(mode)) == "pcblib"@ <==> mode_targets(mode).1,
        mode_targets(mode).2 <==> !mode_targets(mode).0 && !mode_targets(mode).1,
        !(mode_targets(mode).0 && mode_targets(mode).1),
{
    reveal_strlit("schlib");
    reveal_strlit("pcblib");
    assert("schlib"@[0] != "pcblib"@[0]);
}

/// The end of a batch is told with its four numbers, each under its own word, and
/// the end of a renewal with three of them.
pub proof fn law_summaries(summary: BatchSummary)
    ensures
        has_suffix(
            batch_text(summary),
            "Total: "@ + decimal(summary.total as nat) + " | Skipped: "@ + decimal(
                summary.skipped as nat,
            ) + " | Success: "@ + decimal(summary.success as nat) + " | Failed: "@ + decimal(
                summary.failed as nat,
            ),
        ),
        has_suffix(
            refresh_text(summary),
            "Total: "@ + decimal(summary.total as nat) + " | Success: "@ + decimal(
                summary.success as nat,
            ) + " | Failed: "@ + decimal(summary.failed as nat),
        ),
        batch_text(summary) != refresh_text(summary),
{
    reveal_strlit("Batch export complete. Total: ");
    reveal_strlit("Refresh complete. Total: ");
    reveal_strlit("Total: ");
    let a = "Total: "@ + decimal(summary.total as nat) + " | Skipped: "@ + decimal(
        summary.skipped as nat,
    ) + " | Success: "@ + decimal(summary.success as nat) + " | Failed: "@ + decimal(
        summary.failed as nat,
    );
    let b = "Total: "@ + decimal(summary.total as nat) + " | Success: "@ + decimal(
        summary.success as nat,
    ) + " | Failed: "@ + decimal(summary.failed as nat);
    let x = batch_text(summary);
    let y = refresh_text(summary);
    assert(x.skip(x.len() - a.len()) =~= a);
    assert(y.skip(y.len() - b.len()) =~= b);
    assert(x[0] == 'B' && y[0] == 'R');
}

/// The line above results says how many there are and how many are shown: never more
/// than there are or were asked for.
pub proof fn law_heading(found: nat, limit: nat)
    requires
        found > 0,
    ensures
        ({
            let least = if found <= limit {
                found
            } else {
                limit
            };
            heading(found, limit) == "Found "@ + decimal(found) + " result(s), showing first "@
                + decimal(least) + ":"@
        }),
        !heading(0, limit).contains(':'),
{
    reveal_strlit("No results.");
    assert forall|i: int| 0 <= i < heading(0, limit).len() implies #[trigger] heading(0, limit)[i]
        != ':' by {}
}

/// A library that is renewed keeps the stem of its file as its name, unless another
/// name is asked for.
pub proof fn law_renewed_name(library_name: Option<String>, stem: Option<String>)
    ensures
        library_name is Some ==> renewed_name(library_name, stem) == library_name,
        library_name is None ==> renewed_name(library_name, stem) == stem,
{
}

} // verus!
