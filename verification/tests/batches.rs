use npnp::batch::{
    batch_mode_label, format_elapsed, format_subject, library_name_for, merged_footprint_name,
    merged_identity, merged_symbol_component_name, parse_lcsc_ids, reserve_merged_name,
    resolve_library_name, BatchOptions, BatchProgress, ExportTargets,
};
use npnp::batch_runs::{
    append_pcblib_library, append_pcblib_library_direct, check_append_pair, footprint_link,
    loaded_message, merged_outputs_have_room, parse_checkpoint, plan_batch, plan_outputs,
    write_merged_outputs, AppendEnd, AppendMerge, BatchRun, FreshMerge, MergeArtifacts,
};
use npnp::error::AppError;
use npnp::pcb_records::{PcblibComponentRecord, PcblibModelRecord, PcblibRecordLibrary};
use npnp::pcblib::{PcbComponent, PcbLibrary};
use npnp::schlib::SchlibRecord;
use std::path::PathBuf;

fn options() -> BatchOptions {
    BatchOptions {
        input: PathBuf::from("ids.txt"),
        output: PathBuf::from("out"),
        schlib: true,
        pcblib: false,
        full: false,
        merge: true,
        append: false,
        library_name: None,
        parallel: 1,
        continue_on_error: false,
        lcsc_english: false,
        force: false,
    }
}

fn texts(items: &[&str]) -> Vec<String> {
    items.iter().map(|item| item.to_string()).collect()
}

fn message(error: &AppError) -> &str {
    match error {
        AppError::Other(text) => text,
        AppError::InvalidResponse(text) => text,
        AppError::Io(_) => "io",
    }
}

fn record(name: &str, identity: Option<&str>) -> SchlibRecord {
    SchlibRecord {
        name: name.to_string(),
        description: String::new(),
        header_part_count: 2,
        weight: 0,
        identity: identity.map(|id| id.to_string()),
        data: Vec::new(),
    }
}

fn component(name: &str) -> PcbComponent {
    PcbComponent {
        name: name.to_string(),
        description: String::new(),
        height_raw: 0,
        pads: Vec::new(),
        arcs: Vec::new(),
        tracks: Vec::new(),
        regions: Vec::new(),
        bodies: Vec::new(),
        extended_primitive_information: Vec::new(),
    }
}

fn footprint(name: &str) -> PcblibComponentRecord {
    PcblibComponentRecord {
        name: name.to_string(),
        primitive_count: 0,
        parameters: vec![0, 0, 0, 0],
        wide_strings: Vec::new(),
        data: Vec::new(),
        unique_id_primitive_information: Vec::new(),
    }
}

#[test]
fn parse_ids_deduplicates_and_preserves_order() {
    let ids = parse_lcsc_ids("C2040\nfoo C5676243 bar c2040 baz C42");
    assert_eq!(ids, vec!["C2040", "C5676243", "C42"]);
}

#[test]
fn parse_ids_ignores_invalid_matches() {
    let ids = parse_lcsc_ids("C abc c-1 test");
    assert!(ids.is_empty());
}

#[test]
fn parse_ids_finds_numbers_inside_words() {
    assert_eq!(parse_lcsc_ids("CC12c3,xC4y"), vec!["C12", "C3", "C4"]);
    assert_eq!(parse_lcsc_ids("\u{03A9}C7\u{03A9}"), vec!["C7"]);
}

#[test]
fn resolve_library_name_defaults_to_input_stem() {
    let options = BatchOptions {
        input: PathBuf::from("ids.txt"),
        output: PathBuf::from("out"),
        schlib: true,
        pcblib: false,
        full: false,
        merge: true,
        append: false,
        library_name: None,
        parallel: 1,
        continue_on_error: false,
        lcsc_english: false,
        force: false,
    };

    assert_eq!(resolve_library_name(&options), "ids");
}

#[test]
fn library_names_fall_back_in_turn() {
    assert_eq!(library_name_for(Some(" Mine "), Some("ids")), "Mine");
    assert_eq!(library_name_for(Some("  "), Some(" ids ")), "ids");
    assert_eq!(library_name_for(None, Some(" ")), "MergedLib");
    assert_eq!(library_name_for(None, None), "MergedLib");
    let mut named = options();
    named.library_name = Some("Mine".to_string());
    assert_eq!(resolve_library_name(&named), "Mine");
    let mut nameless = options();
    nameless.input = PathBuf::from("..");
    assert_eq!(resolve_library_name(&nameless), "MergedLib");
}

#[test]
fn formats_progress_subject_with_component_name() {
    assert_eq!(format_subject("C2040", Some("RP2040")), "C2040 RP2040");
}

#[test]
fn long_subjects_are_cut() {
    let text = format_subject("C1", Some(&"x".repeat(80)));
    assert_eq!(text.chars().count(), 52);
    assert!(text.starts_with("C1 x") && text.ends_with("..."));
    assert_eq!(format_subject("C1", Some("  ")), "C1");
    assert_eq!(format_subject("C1", None), "C1");
}

#[test]
fn formats_elapsed_time_without_hours() {
    assert_eq!(format_elapsed(65), "01:05");
}

#[test]
fn formats_elapsed_time_with_hours() {
    assert_eq!(format_elapsed(3_600), "01:00:00");
    assert_eq!(format_elapsed(360_061), "100:01:01");
    assert_eq!(format_elapsed(0), "00:00");
}

#[test]
fn targets_follow_the_options() {
    let targets = ExportTargets::resolve(&options()).unwrap();
    assert_eq!(targets.label(), "SchLib");
    let mut full = options();
    full.full = true;
    assert_eq!(ExportTargets::resolve(&full).unwrap().label(), "SchLib+PcbLib");
    let mut idle = options();
    idle.parallel = 0;
    assert_eq!(
        message(&ExportTargets::resolve(&idle).unwrap_err()),
        "--parallel must be at least 1"
    );
    let mut alone = options();
    alone.merge = false;
    alone.append = true;
    assert_eq!(
        message(&ExportTargets::resolve(&alone).unwrap_err()),
        "--append is only supported together with --merge"
    );
    let mut nothing = options();
    nothing.schlib = false;
    assert_eq!(
        message(&ExportTargets::resolve(&nothing).unwrap_err()),
        "at least one export target must be selected (--schlib, --pcblib, or --full)"
    );
    let mut footprints = options();
    footprints.schlib = false;
    footprints.pcblib = true;
    footprints.append = true;
    assert_eq!(
        message(&ExportTargets::resolve(&footprints).unwrap_err()),
        "--append currently requires --schlib or --full"
    );
}

#[test]
fn modes_have_labels() {
    let mut mode = options();
    assert_eq!(batch_mode_label(&mode), "merge");
    mode.append = true;
    assert_eq!(batch_mode_label(&mode), "merge+append");
    mode.merge = false;
    assert_eq!(batch_mode_label(&mode), "batch");
}

#[test]
fn progress_is_drawn() {
    let mut progress = BatchProgress::new(4, 2);
    let first = progress.render(0);
    assert_eq!(
        first,
        "\r[------------------------] 0/4 | ok:0 skip:0 fail:0 | active:2 | last:- | elapsed:00:00"
    );
    let second = progress.record_success("C1", Some("RP2040"), 5);
    assert_eq!(
        second,
        "\r[######------------------] 1/4 | ok:1 skip:0 fail:0 | active:2 | last:C1 RP2040 | elapsed:00:05"
    );
    let width = progress.last_render_width;
    let third = progress.record_failure("C2", "no such part", 6);
    assert!(third.starts_with(&format!("\r{}\rFAILED C2: no such part\n\r[", " ".repeat(width))));
    let fourth = progress.record_skip("C3", "already present", 7);
    assert!(fourth.contains("\rSKIP C3: already present\n"));
    assert_eq!(progress.completed, 3);
    assert_eq!(progress.active_count(), 1);
    assert_eq!(progress.finish(), "\n");
    assert_eq!(progress.finish(), "");
}

#[test]
fn skipped_components_count_as_completed() {
    let mut progress = BatchProgress::new(3, 1);
    let out = progress.seed_skipped(2, "checkpoint", 0);
    assert!(out.contains("Pre-skipped 2 item(s) from checkpoint\n"));
    assert_eq!((progress.completed, progress.skipped), (2, 2));
    assert_eq!(progress.seed_skipped(0, "checkpoint", 0), "");
}

#[test]
fn merged_names_do_not_clash() {
    let mut used = Vec::new();
    assert_eq!(reserve_merged_name("RP2040", "C1", &mut used), "RP2040");
    assert_eq!(reserve_merged_name("rp2040", "C1", &mut used), "rp2040_C1");
    assert_eq!(reserve_merged_name("RP2040", "C1", &mut used), "RP2040_C1_2");
    assert_eq!(reserve_merged_name("RP2040", "C1", &mut used), "RP2040_C1_3");
    assert_eq!(
        used,
        vec!["rp2040", "rp2040_c1", "rp2040_c1_2", "rp2040_c1_3"]
    );
}

#[test]
fn blank_names_give_way_to_part_numbers() {
    let mut used = Vec::new();
    assert_eq!(merged_symbol_component_name("  ", "C9", &mut used), "C9");
    assert_eq!(merged_symbol_component_name(" X ", "C9", &mut used), "X");
    let mut footprints = Vec::new();
    assert_eq!(
        merged_footprint_name(Some("QFN"), "X", "C9", &mut footprints),
        "QFN"
    );
    assert_eq!(merged_footprint_name(None, " X ", "C9", &mut footprints), "X");
    assert_eq!(merged_identity(Some("c8"), "C9"), "C8");
    assert_eq!(merged_identity(Some("what"), "C9"), "C9");
    assert_eq!(merged_identity(None, "C9"), "C9");
}

#[test]
fn checkpoints_list_completed_components() {
    assert_eq!(parse_checkpoint(" C1 \r\n\nC2\n"), vec!["C1", "C2"]);
    assert!(parse_checkpoint("").is_empty());
    let longer = format!("{}{}\n", "C1\n", "C2");
    assert_eq!(parse_checkpoint(&longer), vec!["C1", "C2"]);
}

#[test]
fn completed_components_are_left_out_of_plans() {
    let ids = texts(&["C1", "C2", "C3"]);
    let plan = plan_batch(ids, &texts(&["C2"]), false, 4).unwrap();
    assert_eq!(plan.pending, vec!["C1", "C3"]);
    assert_eq!((plan.skipped, plan.workers), (1, 4));
    let forced = plan_batch(texts(&["C1", "C2"]), &texts(&["C2"]), true, 1).unwrap();
    assert_eq!(forced.pending, vec!["C1", "C2"]);
    assert_eq!((forced.skipped, forced.workers), (0, 1));
    let single = plan_batch(texts(&["C1"]), &texts(&[]), false, 8).unwrap();
    assert_eq!(single.workers, 1);
    let none = plan_batch(texts(&[]), &texts(&[]), false, 8).unwrap_err();
    assert_eq!(message(&none), "no valid LCSC IDs found in batch input");
}

#[test]
fn the_first_error_ends_a_batch() {
    let mut run = BatchRun::new(3, 1, &options());
    run.record_success();
    assert!(!run.must_stop());
    run.record_failure("C2", AppError::Other("first".to_string()));
    run.record_lost_task("cancelled");
    assert!(run.must_stop());
    assert_eq!(run.summary.failed, 2);
    assert_eq!(run.summary.failed_ids, vec!["C2"]);
    assert_eq!(message(&run.finish().unwrap_err()), "first");
}

#[test]
fn errors_may_be_passed_over() {
    let mut lenient = options();
    lenient.continue_on_error = true;
    let mut run = BatchRun::new(2, 0, &lenient);
    run.record_lost_task("cancelled");
    assert_eq!(
        message(run.first_error.as_ref().unwrap()),
        "batch task join failed: cancelled"
    );
    let summary = run.finish().unwrap();
    assert_eq!((summary.total, summary.failed), (2, 1));
    assert_eq!(summary.output, PathBuf::from("out"));
}

#[test]
fn a_failed_batch_without_an_error_still_fails() {
    let mut run = BatchRun::new(1, 0, &options());
    run.summary.failed = 1;
    assert_eq!(message(&run.finish().unwrap_err()), "batch export failed");
}

fn artifacts(name: &str) -> MergeArtifacts<PcbLibrary> {
    MergeArtifacts {
        identity: "C1".to_string(),
        component_name: name.to_string(),
        schlib_record: Some(record(name, Some("C1"))),
        pcblib_library: Some(PcbLibrary {
            components: vec![component(name)],
            models: Vec::new(),
        }),
    }
}

#[test]
fn outcomes_are_taken_in_the_order_of_the_batch() {
    let mut lenient = options();
    lenient.continue_on_error = true;
    let mut merge = FreshMerge::new(4, &lenient);
    merge.collect(vec![
        (2, "C3".to_string(), Ok(artifacts("third"))),
        (0, "C1".to_string(), Ok(artifacts("first"))),
        (3, "C4".to_string(), Err(AppError::Other("late".to_string()))),
        (1, "C2".to_string(), Err(AppError::Other("early".to_string()))),
    ]);
    let names: Vec<&str> = merge.records.iter().map(|r| r.name.as_str()).collect();
    assert_eq!(names, vec!["first", "third"]);
    assert_eq!(merge.library.components.len(), 2);
    assert_eq!(merge.run.summary.success, 2);
    assert_eq!(merge.run.summary.failed, 2);
    assert_eq!(merge.run.summary.failed_ids, vec!["C2", "C4"]);
    assert_eq!(message(merge.run.first_error.as_ref().unwrap()), "early");
    assert!(merge.check_exported().is_ok());
}

#[test]
fn outcomes_of_one_place_keep_their_order() {
    let mut merge = FreshMerge::new(3, &options());
    merge.collect(vec![
        (1, "C3".to_string(), Ok(artifacts("late"))),
        (0, "C1".to_string(), Ok(artifacts("first"))),
        (0, "C2".to_string(), Ok(artifacts("second"))),
    ]);
    let names: Vec<&str> = merge.records.iter().map(|r| r.name.as_str()).collect();
    assert_eq!(names, vec!["first", "second", "late"]);
}

#[test]
fn a_merge_without_components_fails() {
    let merge = FreshMerge::new(1, &options());
    assert_eq!(
        message(&merge.check_exported().unwrap_err()),
        "no components exported successfully for merged batch"
    );
    let mut lost = FreshMerge::new(1, &options());
    lost.add_artifacts(artifacts("first"));
    lost.note_lost_task("cancelled");
    lost.note_lost_task("again");
    assert_eq!(
        message(&lost.check_exported().unwrap_err()),
        "merge task join failed: cancelled"
    );
    let mut failed = FreshMerge::new(1, &options());
    failed.add_failure("C1", AppError::Other("gone".to_string()));
    assert_eq!(message(&failed.check_exported().unwrap_err()), "gone");
}

#[test]
fn outputs_need_components() {
    let both = ExportTargets {
        schlib: true,
        pcblib: true,
    };
    let plan = plan_outputs(both, true, false);
    assert!(plan.schlib && !plan.pcblib);
    assert_eq!(
        message(&plan.error.unwrap()),
        "cannot write merged PcbLib without any components"
    );
    let none = plan_outputs(both, false, true);
    assert!(!none.schlib && !none.pcblib);
    assert_eq!(
        message(&none.error.unwrap()),
        "cannot write merged SchLib without any components"
    );
    let all = plan_outputs(both, true, true);
    assert!(all.schlib && all.pcblib && all.error.is_none());
}

#[test]
fn merged_outputs_are_written_in_turn() {
    let both = ExportTargets {
        schlib: true,
        pcblib: true,
    };
    let empty = PcblibRecordLibrary::default();
    let outputs = write_merged_outputs(both, &[record("A", None)], &empty, "");
    assert!(outputs.schlib.is_some() && outputs.pcblib.is_none());
    assert_eq!(
        message(&outputs.error.unwrap()),
        "cannot write merged PcbLib without any components"
    );
    let library = PcblibRecordLibrary {
        components: vec![footprint("QFN")],
        models: Vec::new(),
    };
    let outputs = write_merged_outputs(both, &[record("A", None)], &library, "|A=1|");
    assert!(outputs.error.is_none());
    let symbols = npnp::schlib::read_schlib_records(&outputs.schlib.unwrap()).unwrap();
    assert_eq!(symbols[0].name, "A");
    let footprints = npnp::pcb_records::read_pcblib_records(&outputs.pcblib.unwrap()).unwrap();
    assert_eq!(footprints.components[0].name, "QFN");
    let clashing = PcblibRecordLibrary {
        components: vec![footprint("QFN"), footprint("qfn")],
        models: Vec::new(),
    };
    assert!(merged_outputs_have_room(both, &[record("A", None)], &clashing, ""));
    let outputs = write_merged_outputs(both, &[record("A", None)], &clashing, "");
    assert!(outputs.schlib.is_some() && outputs.pcblib.is_none());
    assert!(matches!(outputs.error, Some(AppError::Io(_))));
    let outputs = write_merged_outputs(both, &[record("Storage", None)], &library, "");
    assert!(outputs.schlib.is_none() && outputs.pcblib.is_none());
    assert!(matches!(outputs.error, Some(AppError::Io(_))));
    let nothing = write_merged_outputs(both, &[], &library, "");
    assert!(nothing.schlib.is_none() && nothing.pcblib.is_none());
    assert_eq!(
        message(&nothing.error.unwrap()),
        "cannot write merged SchLib without any components"
    );
}

#[test]
fn both_merged_files_exist_or_neither() {
    let both = ExportTargets {
        schlib: true,
        pcblib: true,
    };
    let symbols = ExportTargets {
        schlib: true,
        pcblib: false,
    };
    assert!(check_append_pair(both, true, true).is_ok());
    assert!(check_append_pair(both, false, false).is_ok());
    assert!(check_append_pair(symbols, true, false).is_ok());
    assert_eq!(
        message(&check_append_pair(both, true, false).unwrap_err()),
        "append mode requires both merged SchLib and PcbLib to exist already, or neither"
    );
}

#[test]
fn loading_is_reported() {
    assert_eq!(
        loaded_message(0, 0),
        "Append mode: no existing merged npnp library found, creating a new one"
    );
    assert_eq!(
        loaded_message(12, 3),
        "Loaded existing merged output: SchLib components: 12 | PcbLib components: 3"
    );
}

#[test]
fn present_components_are_left_out() {
    let library = PcblibRecordLibrary {
        components: vec![footprint("QFN")],
        models: Vec::new(),
    };
    let mut merge = AppendMerge::new(
        3,
        &options(),
        vec![record("Old", Some("c1")), record("Plain", None)],
        library,
    );
    assert!(merge.is_present("C1"));
    assert!(merge.is_present(" c1 "));
    assert!(!merge.is_present("C2"));
    assert_eq!(merge.used_symbol_names, vec!["old", "plain"]);
    assert_eq!(merge.used_footprint_names, vec!["qfn"]);
    merge.record_skip();
    merge.add_artifacts(MergeArtifacts {
        identity: "C2".to_string(),
        component_name: "New".to_string(),
        schlib_record: Some(record("New", Some("C2"))),
        pcblib_library: Some(PcblibRecordLibrary {
            components: vec![footprint("SOT")],
            models: vec![PcblibModelRecord {
                entry: vec![1],
                stream: vec![2],
            }],
        }),
    });
    assert!(merge.is_present("C2"));
    assert_eq!(merge.records.len(), 3);
    assert_eq!(merge.library.components.len(), 2);
    assert_eq!(merge.library.models.len(), 1);
    merge.add_failure("C3", AppError::Other("gone".to_string()));
    assert_eq!(
        (
            merge.run.summary.skipped,
            merge.run.summary.success,
            merge.run.summary.failed
        ),
        (1, 1, 1)
    );
    assert!(matches!(merge.end(), AppendEnd::Write));
}

#[test]
fn an_append_without_additions_ends_well_or_in_its_error() {
    let mut idle = AppendMerge::new(1, &options(), Vec::new(), PcblibRecordLibrary::default());
    assert!(matches!(idle.end(), AppendEnd::Unchanged));
    idle.add_failure("C1", AppError::Other("gone".to_string()));
    match idle.end() {
        AppendEnd::Fail(error) => assert_eq!(message(&error), "gone"),
        _ => panic!("expected an error"),
    }
    match idle.end() {
        AppendEnd::Fail(error) => assert_eq!(message(&error), "append merge failed"),
        _ => panic!("expected an error"),
    }
}

#[test]
fn footprints_are_linked_where_the_library_has_them() {
    let library = PcbLibrary {
        components: vec![component("qfn-20")],
        models: Vec::new(),
    };
    assert_eq!(
        footprint_link(Some(&library), "QFN-20", "Mine.PcbLib"),
        Some(("QFN-20".to_string(), "Mine.PcbLib".to_string()))
    );
    assert_eq!(footprint_link(Some(&library), "QFN-32", "Mine.PcbLib"), None);
    assert_eq!(footprint_link(None, "QFN-20", "Mine.PcbLib"), None);
}

#[test]
fn libraries_are_joined_in_order() {
    let mut target = PcbLibrary {
        components: vec![component("a")],
        models: Vec::new(),
    };
    append_pcblib_library_direct(
        &mut target,
        PcbLibrary {
            components: vec![component("b")],
            models: Vec::new(),
        },
    );
    let names: Vec<&str> = target.components.iter().map(|c| c.name.as_str()).collect();
    assert_eq!(names, vec!["a", "b"]);
    let mut records = PcblibRecordLibrary::default();
    append_pcblib_library(
        &mut records,
        PcblibRecordLibrary {
            components: vec![footprint("c")],
            models: Vec::new(),
        },
    );
    assert_eq!(records.components[0].name, "c");
}
