use npnp::batch::{parse_lcsc_ids, BatchOptions, BatchSummary};
use npnp::cli::{
    batch_message, choose_task, display_invocation_name, failed_message, invocation_name_for,
    prompt_examples, refresh_input, refresh_message, refresh_options, refresh_targets,
    search_heading, search_row, Cli, Commands, ExportKind, Task,
};
use std::path::PathBuf;

#[test]
fn prompt_examples_use_requested_command_name() {
    let text = prompt_examples("npnp");
    assert!(text.contains("npnp search C2040 --limit 5"));
    assert!(text.contains("npnp export-pcblib C2040 --index 1 --output pcblib --force"));
}

#[test]
fn prompt_examples_are_listed_line_by_line() {
    let text = prompt_examples("  ");
    let lines: Vec<&str> = text.split('\n').collect();
    assert_eq!(lines.len(), 26);
    assert_eq!(lines[0], "Normalize Pin Net Pad (npnp) ready-to-run commands:");
    assert_eq!(lines[1], "");
    assert_eq!(lines[3], "  npnp search C2040 --limit 5");
    assert_eq!(
        lines[24],
        "  npnp refresh --schlib generated\\merged\\MyLib.SchLib"
    );
    assert_eq!(lines[25], "");
    assert!(prompt_examples(" tool ").contains("\n  tool bundle C2040"));
}

#[test]
fn invocation_name_strips_exe_extension() {
    assert_eq!(
        display_invocation_name(&PathBuf::from(r"C:\tools\npnp.exe")),
        "npnp"
    );
}

#[test]
fn the_program_is_named_after_its_file() {
    assert_eq!(display_invocation_name(&PathBuf::from("/usr/bin/np.exe")), "np");
    assert_eq!(display_invocation_name(&PathBuf::from("/")), "npnp");
    assert_eq!(invocation_name_for(Some(" np ")), "np");
    assert_eq!(invocation_name_for(Some(r"C:\bin\np")), "np");
    assert_eq!(invocation_name_for(Some(r"np\")), "npnp");
    assert_eq!(invocation_name_for(Some(" ")), "npnp");
    assert_eq!(invocation_name_for(None), "npnp");
}

#[test]
fn examples_come_before_commands() {
    let cli = Cli {
        prompt: true,
        command: Some(Commands::Search {
            keyword: "C2040".to_string(),
            limit: 20,
        }),
    };
    assert!(matches!(choose_task(cli), Task::ShowExamples));
    let idle = Cli {
        prompt: false,
        command: None,
    };
    assert!(matches!(choose_task(idle), Task::ShowHelp));
}

#[test]
fn commands_become_tasks() {
    let cli = Cli {
        prompt: false,
        command: Some(Commands::ExportSchlib {
            keyword: "C2040".to_string(),
            index: 3,
            output: PathBuf::from("schlib"),
            lcsc_english: true,
            force: false,
        }),
    };
    match choose_task(cli) {
        Task::Export(task) => {
            assert_eq!(task.kind, ExportKind::Schlib { lcsc_english: true });
            assert_eq!((task.keyword.as_str(), task.index), ("C2040", 3));
            assert_eq!(task.output, PathBuf::from("schlib"));
        }
        _ => panic!("expected an export"),
    }
    let cli = Cli {
        prompt: false,
        command: Some(Commands::Batch {
            input: PathBuf::from("ids.txt"),
            output: PathBuf::from("batch"),
            schlib: false,
            pcblib: true,
            full: false,
            merge: true,
            append: false,
            library_name: Some("Mine".to_string()),
            parallel: 4,
            continue_on_error: true,
            lcsc_english: false,
            force: true,
        }),
    };
    match choose_task(cli) {
        Task::Batch(options) => {
            assert!(options.pcblib && options.merge && !options.schlib && options.force);
            assert_eq!(options.parallel, 4);
            assert_eq!(options.library_name.as_deref(), Some("Mine"));
        }
        _ => panic!("expected a batch"),
    }
}

#[test]
fn results_are_listed() {
    assert_eq!(search_heading(0, 20), (0, "No results.".to_string()));
    assert_eq!(
        search_heading(31, 20),
        (20, "Found 31 result(s), showing first 20:".to_string())
    );
    assert_eq!(search_heading(3, 20).0, 3);
    assert_eq!(
        search_row(1, "RP2040", Some("C2040"), "Raspberry Pi", true),
        "[  1] RP2040 | LCSC ID: C2040 | Manufacturer: Raspberry Pi | 3D model: yes"
    );
    assert_eq!(
        search_row(42, "X", None, "", false),
        "[ 42] X | LCSC ID: - | Manufacturer: - | 3D model: no"
    );
    assert!(search_row(100, "X", None, "", false).starts_with("[100] X"));
    assert!(search_row(1234, "X", None, "", false).starts_with("[1234] X"));
}

fn summary() -> BatchSummary {
    BatchSummary {
        total: 5,
        skipped: 1,
        success: 2,
        failed: 2,
        failed_ids: vec!["C1".to_string(), "C2".to_string()],
        output: PathBuf::from("out"),
        generated_files: Vec::new(),
    }
}

#[test]
fn summaries_are_printed() {
    assert_eq!(
        batch_message(&summary()),
        "Batch export complete. Total: 5 | Skipped: 1 | Success: 2 | Failed: 2"
    );
    assert_eq!(
        refresh_message(&summary()),
        "Refresh complete. Total: 5 | Success: 2 | Failed: 2"
    );
    assert_eq!(
        failed_message(&summary()).as_deref(),
        Some("Failed IDs: C1, C2")
    );
    let mut fine = summary();
    fine.failed_ids.clear();
    assert_eq!(failed_message(&fine), None);
}

#[test]
fn refreshing_renews_everything() {
    assert_eq!(refresh_targets(" SchLib "), (true, false, false));
    assert_eq!(refresh_targets("pcblib"), (false, true, false));
    assert_eq!(refresh_targets("anything"), (false, false, true));
    let options: BatchOptions = refresh_options(
        PathBuf::from("ids.tmp"),
        PathBuf::from("out"),
        "full",
        None,
        Some("Stem".to_string()),
        4,
        true,
    );
    assert!(options.full && options.merge && options.force && options.continue_on_error);
    assert!(!options.append && !options.schlib && !options.pcblib && options.lcsc_english);
    assert_eq!(options.library_name.as_deref(), Some("Stem"));
}

#[test]
fn refresh_input_is_read_back() {
    let ids: Vec<String> = ["C12", "C7", "C123"].iter().map(|s| s.to_string()).collect();
    assert_eq!(refresh_input(&ids), "C12\nC7\nC123");
    assert_eq!(parse_lcsc_ids(&refresh_input(&ids)), ids);
}
