//! The course of a batch: what each outcome does to its summary and to the
//! libraries under way, when it stops, and what it ends in.

use std::path::PathBuf;
use vstd::prelude::*;
use vstd::seq_lib::to_multiset_insert;
use crate::batch::{BatchOptions, BatchSummary, ExportTargets};
use crate::error::{other_error, AppError, Failure};
use crate::pcb_records::{
    holds_pcblib, pcblib_fits, pcblib_has_room, pcblib_size, write_pcblib_records,
    PcblibComponentRecord, PcblibModel, PcblibRecordLibrary,
};
use crate::pcblib::{PcbComponent, PcbLibrary, PcbModel};
use crate::compound::{image_streams, CONTENT_LIMIT};
use crate::schlib::{
    holds_schlib, law_lcsc_id_normal, lcsc_id, models, normalize_lcsc_id, optional, schlib_fits,
    schlib_has_room, schlib_size, total_weight, write_schlib_records, SchlibModel, SchlibRecord,
};
use crate::text::{
    decimal, decimal_text, filled, filled_parts, has_text, lemma_split_join, lemma_split_without,
    lower_text, lowercased, same_but_case, same_text_but_case, split, split_text, trim, views,
};

verus! {

/// The part numbers that a checkpoint lists, one to a line.
pub open spec fn completed_in(content: Seq<char>) -> Seq<Seq<char>> {
    filled(split(content, '\n'))
}

pub fn parse_checkpoint(content: &str) -> (ids: Vec<String>)
    ensures
        views(ids@) == completed_in(content@),
{
    filled_parts(&split_text(content, '\n'))
}

/// A part number that is added to a checkpoint, on a line of its own, is listed
/// behind those that were there.
pub proof fn law_checkpoint_line_added(content: Seq<char>, id: Seq<char>)
    requires
        content.len() == 0 || content.last() == '\n',
        id.len() > 0,
        trim(id) == id,
        !id.contains('\n'),
    ensures
        completed_in(content + id + "\n"@) == completed_in(content).push(id),
{
    reveal_strlit("\n");
    let blank = Seq::<char>::empty();
    let whole = content + id + "\n"@;
    lemma_split_without(blank, '\n');
    lemma_split_without(id, '\n');
    assert(whole =~= (content + id) + seq!['\n'] + blank);
    lemma_split_join(content + id, '\n', blank);
    let lines = split(content + id, '\n');
    assert(split(whole, '\n') == lines + seq![blank]);
    assert((lines + seq![blank]).drop_last() =~= lines);
    assert(trim(blank) == blank);
    assert(filled(split(whole, '\n')) == filled(lines));
    if content.len() == 0 {
        assert(content =~= blank);
        assert(content + id =~= id);
        assert(lines =~= seq![id]);
        assert(lines.drop_last() =~= Seq::<Seq<char>>::empty());
        assert(split(content, '\n') =~= seq![blank]);
        assert(seq![blank].drop_last() =~= Seq::<Seq<char>>::empty());
    } else {
        let before = content.drop_last();
        assert(content + id =~= before + seq!['\n'] + id);
        lemma_split_join(before, '\n', id);
        assert(lines.drop_last() =~= split(before, '\n'));
        assert(content =~= before + seq!['\n'] + blank);
        lemma_split_join(before, '\n', blank);
        assert(split(content, '\n').drop_last() =~= split(before, '\n'));
    }
}

/// The part numbers of `ids` that are not among `completed`, or all of them
/// where work is repeated by `force`.
pub open spec fn unfinished(
    ids: Seq<Seq<char>>,
    completed: Seq<Seq<char>>,
    force: bool,
) -> Seq<Seq<char>>
    decreases ids.len(),
{
    if ids.len() == 0 {
        Seq::empty()
    } else {
        let before = unfinished(ids.drop_last(), completed, force);
        if !force && completed.contains(ids.last()) {
            before
        } else {
            before.push(ids.last())
        }
    }
}

/// How many components are worked on at a time.
pub open spec fn worker_count(parallel: nat, pending: nat) -> nat {
    if parallel > 1 && pending > 1 {
        parallel
    } else {
        1
    }
}

pub fn actual_parallel(parallel: usize, pending: usize) -> (r: usize)
    ensures
        r == worker_count(parallel as nat, pending as nat),
{
    if parallel > 1 && pending > 1 {
        parallel
    } else {
        1
    }
}

/// What a batch has before it.
#[derive(Debug)]
pub struct BatchPlan {
    pub pending: Vec<String>,
    pub skipped: usize,
    pub workers: usize,
}

/// Sorts out what is left to do of `ids`. There must be at least one.
pub fn plan_batch(ids: Vec<String>, completed: &Vec<String>, force: bool, parallel: usize) -> (r:
    Result<BatchPlan, AppError>)
    ensures
        match r {
            Ok(plan) => {
                &&& ids@.len() > 0
                &&& views(plan.pending@) == unfinished(views(ids@), views(completed@), force)
                &&& plan.pending@.len() + plan.skipped == ids@.len()
                &&& plan.workers == worker_count(parallel as nat, plan.pending@.len())
            },
            Err(e) => ids@.len() == 0 && e.failure() == Failure::Other(
                "no valid LCSC IDs found in batch input"@,
            ),
        },
{
    if ids.len() == 0 {
        return Err(other_error("no valid LCSC IDs found in batch input"));
    }
    let ghost all = views(ids@);
    let mut pending: Vec<String> = Vec::new();
    let mut skipped: usize = 0;
    let mut i: usize = 0;
    assert(all.take(0) =~= Seq::<Seq<char>>::empty());
    assert(views(pending@) =~= Seq::<Seq<char>>::empty());
    while i < ids.len()
        invariant
            i <= ids@.len(),
            all == views(ids@),
            views(pending@) == unfinished(all.take(i as int), views(completed@), force),
            pending@.len() + skipped == i,
        decreases ids.len() - i,
    {
        proof {
            assert(all.take(i + 1).drop_last() =~= all.take(i as int));
            assert(all.take(i + 1).last() == ids@[i as int]@);
        }
        if !force && has_text(completed, ids[i].as_str()) {
            skipped += 1;
        } else {
            let ghost before = views(pending@);
            pending.push(ids[i].clone());
            assert(views(pending@) =~= before.push(ids@[i as int]@));
        }
        i += 1;
    }
    assert(all.take(i as int) =~= all);
    let workers: usize = actual_parallel(parallel, pending.len());
    Ok(BatchPlan { pending, skipped, workers })
}

/// With `force` nothing is left out, and otherwise exactly what was completed.
pub proof fn law_unfinished(
    ids: Seq<Seq<char>>,
    completed: Seq<Seq<char>>,
    force: bool,
    id: Seq<char>,
)
    ensures
        unfinished(ids, completed, force).contains(id) <==> ids.contains(id) && (force
            || !completed.contains(id)),
        force ==> unfinished(ids, completed, force) == ids,
    decreases ids.len(),
{
    if ids.len() > 0 {
        let init = ids.drop_last();
        let all = unfinished(ids, completed, force);
        let before = unfinished(init, completed, force);
        law_unfinished(init, completed, force, id);
        assert(ids =~= init.push(ids.last()));
        if ids.contains(id) && id != ids.last() {
            let i = choose|i: int| 0 <= i < ids.len() && ids[i] == id;
            assert(init[i] == id);
        }
        if init.contains(id) {
            let i = choose|i: int| 0 <= i < init.len() && init[i] == id;
            assert(ids[i] == id);
        }
        if before.contains(id) {
            let i = choose|i: int| 0 <= i < before.len() && before[i] == id;
            assert(all[i] == id);
        }
        if all.contains(id) && !before.contains(id) {
            let i = choose|i: int| 0 <= i < all.len() && all[i] == id;
            assert(i == before.len() || before[i] == id);
        }
        if id == ids.last() {
            assert(ids[ids.len() - 1] == id);
            if force || !completed.contains(id) {
                assert(all[all.len() - 1] == id);
            }
        }
    }
}

/// A component whose part number was added to the checkpoint is not exported
/// again, unless by `force`.
pub proof fn law_completed_is_left_out(content: Seq<char>, id: Seq<char>, ids: Seq<Seq<char>>)
    requires
        content.len() == 0 || content.last() == '\n',
        id.len() > 0,
        trim(id) == id,
        !id.contains('\n'),
    ensures
        !unfinished(ids, completed_in(content + id + "\n"@), false).contains(id),
{
    let completed = completed_in(content + id + "\n"@);
    law_checkpoint_line_added(content, id);
    assert(completed[completed.len() - 1] == id);
    law_unfinished(ids, completed, false, id);
}

/// A batch under way: its summary so far and the first error.
#[derive(Debug)]
pub struct BatchRun {
    pub summary: BatchSummary,
    pub first_error: Option<AppError>,
    pub continue_on_error: bool,
}

/// Whether `after` is `before` with one more component exported.
pub open spec fn counts_success(before: BatchSummary, after: BatchSummary) -> bool {
    after == (BatchSummary { success: (before.success + 1) as usize, ..before })
}

/// Whether `after` is `before` with one more component failed, under the part number `id`.
pub open spec fn counts_failure(before: BatchSummary, after: BatchSummary, id: Seq<char>) -> bool {
    &&& after == (BatchSummary {
        failed: (before.failed + 1) as usize,
        failed_ids: after.failed_ids,
        ..before
    })
    &&& views(after.failed_ids@) == views(before.failed_ids@).push(id)
}

impl BatchRun {
    /// Whether an error has come up that ends the batch.
    pub open spec fn is_stopped(self) -> bool {
        self.first_error is Some && !self.continue_on_error
    }

    /// Whether a component failed and errors end the batch.
    pub open spec fn fails(self) -> bool {
        self.summary.failed > 0 && !self.continue_on_error
    }

    pub fn new(total: usize, skipped: usize, options: &BatchOptions) -> (r: Self)
        ensures
            r.summary.total == total,
            r.summary.skipped == skipped,
            r.summary.success == 0 && r.summary.failed == 0,
            views(r.summary.failed_ids@) == Seq::<Seq<char>>::empty(),
            r.summary.output == options.output,
            r.summary.generated_files@ == Seq::<PathBuf>::empty(),
            r.first_error is None,
            r.continue_on_error == options.continue_on_error,
    {
        let r = BatchRun {
            summary: BatchSummary {
                total,
                skipped,
                success: 0,
                failed: 0,
                failed_ids: Vec::new(),
                output: options.output.clone(),
                generated_files: Vec::new(),
            },
            first_error: None,
            continue_on_error: options.continue_on_error,
        };
        assert(views(r.summary.failed_ids@) =~= Seq::<Seq<char>>::empty());
        r
    }

    pub fn record_success(&mut self)
        requires
            old(self).summary.success < usize::MAX,
        ensures
            counts_success(old(self).summary, final(self).summary),
            final(self).first_error == old(self).first_error,
            final(self).continue_on_error == old(self).continue_on_error,
    {
        self.summary.success = self.summary.success + 1;
    }

    /// Notes an error, of which only the first is kept.
    pub fn note_error(&mut self, error: AppError)
        ensures
            final(self).summary == old(self).summary,
            final(self).first_error == if old(self).first_error is Some {
                old(self).first_error
            } else {
                Some(error)
            },
            final(self).continue_on_error == old(self).continue_on_error,
    {
        if self.first_error.is_none() {
            self.first_error = Some(error);
        }
    }

    pub fn record_failure(&mut self, id: &str, error: AppError)
        requires
            old(self).summary.failed < usize::MAX,
        ensures
            counts_failure(old(self).summary, final(self).summary, id@),
            final(self).first_error == if old(self).first_error is Some {
                old(self).first_error
            } else {
                Some(error)
            },
            final(self).continue_on_error == old(self).continue_on_error,
    {
        let ghost before = views(self.summary.failed_ids@);
        self.summary.failed = self.summary.failed + 1;
        self.summary.failed_ids.push(id.to_owned());
        assert(views(self.summary.failed_ids@) =~= before.push(id@));
        self.note_error(error);
    }

    /// Counts a task that was lost before it could say which component it was for.
    pub fn record_lost_task(&mut self, error: &str)
        requires
            old(self).summary.failed < usize::MAX,
        ensures
            final(self).summary == (BatchSummary {
                failed: (old(self).summary.failed + 1) as usize,
                ..old(self).summary
            }),
            match old(self).first_error {
                Some(first) => final(self).first_error == Some(first),
                None => final(self).first_error matches Some(e) && e.failure() == Failure::Other(
                    "batch task join failed: "@ + error@,
                ),
            },
            final(self).continue_on_error == old(self).continue_on_error,
    {
        self.summary.failed = self.summary.failed + 1;
        let mut message = "batch task join failed: ".to_owned();
        message.append(error);
        self.note_error(AppError::Other(message));
    }

    /// Whether an error has come up that ends the batch.
    pub fn must_stop(&self) -> (r: bool)
        ensures
            r == self.is_stopped(),
    {
        self.first_error.is_some() && !self.continue_on_error
    }

    /// What the batch ends in: its first error where a component failed and
    /// errors end it, else its summary.
    pub fn finish(self) -> (r: Result<BatchSummary, AppError>)
        ensures
            if self.fails() {
                match self.first_error {
                    Some(first) => r == Err::<BatchSummary, AppError>(first),
                    None => r matches Err(e) && e.failure() == Failure::Other(
                        "batch export failed"@,
                    ),
                }
            } else {
                r == Ok::<BatchSummary, AppError>(self.summary)
            },
    {
        if self.summary.failed > 0 && !self.continue_on_error {
            match self.first_error {
                Some(first) => Err(first),
                None => Err(other_error("batch export failed")),
            }
        } else {
            Ok(self.summary)
        }
    }
}

// Merged libraries

/// What exporting one component for a merged library gives.
#[derive(Debug)]
pub struct MergeArtifacts<L> {
    pub identity: String,
    pub component_name: String,
    pub schlib_record: Option<SchlibRecord>,
    pub pcblib_library: Option<L>,
}

/// Whether one of `names` is the footprint's, up to case.
pub open spec fn link_is_valid(names: Seq<Seq<char>>, footprint_name: Seq<char>) -> bool {
    exists|i: int|
        0 <= i < names.len() && same_but_case(#[trigger] names[i], footprint_name)
}

pub open spec fn component_names(library: PcbLibrary) -> Seq<Seq<char>> {
    library.components@.map_values(|c: PcbComponent| c.name@)
}

pub fn footprint_link_is_valid(library: Option<&PcbLibrary>, footprint_name: &str) -> (r: bool)
    ensures
        r == match library {
            Some(library) => link_is_valid(component_names(*library), footprint_name@),
            None => false,
        },
{
    match library {
        Some(found) => {
            let mut i: usize = 0;
            while i < found.components.len()
                invariant
                    library == Some(found),
                    i <= found.components@.len(),
                    forall|k: int|
                        0 <= k < i ==> !same_but_case(
                            #[trigger] component_names(*found)[k],
                            footprint_name@,
                        ),
                decreases found.components.len() - i,
            {
                assert(component_names(*found)[i as int] == found.components@[i as int].name@);
                if same_text_but_case(found.components[i].name.as_str(), footprint_name) {
                    return true;
                }
                i += 1;
            }
            false
        },
        None => false,
    }
}

/// What a schematic component says of its footprint: its name and the file that
/// it is in, where the library that goes there has it.
pub fn footprint_link(library: Option<&PcbLibrary>, footprint_name: &str, file: &str) -> (r: Option<
    (String, String),
>)
    ensures
        match r {
            Some(link) => library matches Some(found) && link_is_valid(
                component_names(*found),
                footprint_name@,
            ) && link.0@ == footprint_name@ && link.1@ == file@,
            None => library matches Some(found) ==> !link_is_valid(
                component_names(*found),
                footprint_name@,
            ),
        },
{
    if footprint_link_is_valid(library, footprint_name) {
        Some((footprint_name.to_owned(), file.to_owned()))
    } else {
        None
    }
}

pub fn append_pcblib_library_direct(target: &mut PcbLibrary, source: PcbLibrary)
    ensures
        final(target).components@ == old(target).components@ + source.components@,
        final(target).models@ == old(target).models@ + source.models@,
{
    let mut source = source;
    target.components.append(&mut source.components);
    target.models.append(&mut source.models);
}

pub fn append_pcblib_library(target: &mut PcblibRecordLibrary, source: PcblibRecordLibrary)
    ensures
        final(target).components@ == old(target).components@ + source.components@,
        final(target).models@ == old(target).models@ + source.models@,
{
    let mut source = source;
    target.components.append(&mut source.components);
    target.models.append(&mut source.models);
}

/// A fresh merged library under way.
#[derive(Debug)]
pub struct FreshMerge {
    pub run: BatchRun,
    pub records: Vec<SchlibRecord>,
    pub library: PcbLibrary,
}

/// Records with one more behind them, where there is one.
pub open spec fn with_record(records: Seq<SchlibRecord>, record: Option<SchlibRecord>) -> Seq<
    SchlibRecord,
> {
    match record {
        Some(record) => records.push(record),
        None => records,
    }
}

/// Whether `after` is `before` with these artifacts taken in.
pub open spec fn takes_in(
    before: FreshMerge,
    after: FreshMerge,
    artifacts: MergeArtifacts<PcbLibrary>,
) -> bool {
    &&& counts_success(before.run.summary, after.run.summary)
    &&& after.run.first_error == before.run.first_error
    &&& after.run.continue_on_error == before.run.continue_on_error
    &&& after.records@ == with_record(before.records@, artifacts.schlib_record)
    &&& match artifacts.pcblib_library {
        Some(library) => {
            &&& after.library.components@ == before.library.components@ + library.components@
            &&& after.library.models@ == before.library.models@ + library.models@
        },
        None => after.library == before.library,
    }
}

/// Whether `after` is `before` with this failure taken in.
pub open spec fn takes_failure(
    before: FreshMerge,
    after: FreshMerge,
    id: Seq<char>,
    error: AppError,
) -> bool {
    &&& counts_failure(before.run.summary, after.run.summary, id)
    &&& after.run.first_error == if before.run.first_error is Some {
        before.run.first_error
    } else {
        Some(error)
    }
    &&& after.run.continue_on_error == before.run.continue_on_error
    &&& after.records == before.records
    &&& after.library == before.library
}

/// What came of a component that was exported beside others: its place in the
/// order of the batch, its part number, and the outcome.
pub type Outcome = (usize, String, Result<MergeArtifacts<PcbLibrary>, AppError>);

/// Whether `after` is `before` with this outcome taken in.
pub open spec fn takes(before: FreshMerge, after: FreshMerge, outcome: Outcome) -> bool {
    match outcome.2 {
        Ok(artifacts) => takes_in(before, after, artifacts),
        Err(error) => takes_failure(before, after, outcome.1@, error),
    }
}

/// Whether `states` are what a merge goes through as it takes in `outcomes`.
pub open spec fn is_course(states: Seq<FreshMerge>, outcomes: Seq<Outcome>) -> bool {
    &&& states.len() == outcomes.len() + 1
    &&& forall|i: int|
        0 <= i < outcomes.len() ==> takes(states[i], states[i + 1], #[trigger] outcomes[i])
}

/// Whether taking in `outcomes` one after the other leads from `before` to `after`.
pub open spec fn takes_all(before: FreshMerge, after: FreshMerge, outcomes: Seq<Outcome>) -> bool {
    exists|states: Seq<FreshMerge>| #[trigger]
        is_course(states, outcomes) && states[0] == before && states.last() == after
}

/// Every outcome is counted once, as exported or as failed, and those that failed
/// are named.
pub proof fn law_outcomes_counted(states: Seq<FreshMerge>, outcomes: Seq<Outcome>)
    requires
        is_course(states, outcomes),
        states[0].run.summary.success + outcomes.len() <= usize::MAX,
        states[0].run.summary.failed + outcomes.len() <= usize::MAX,
    ensures
        ({
            let before = states[0].run.summary;
            let after = states.last().run.summary;
            &&& after.success + after.failed == before.success + before.failed + outcomes.len()
            &&& after.failed_ids@.len() - before.failed_ids@.len() == after.failed - before.failed
            &&& after.success >= before.success
            &&& after.failed >= before.failed
        }),
    decreases outcomes.len(),
{
    if outcomes.len() > 0 {
        let shorter = states.drop_last();
        let init = outcomes.drop_last();
        assert forall|i: int| 0 <= i < init.len() implies takes(
            shorter[i],
            shorter[i + 1],
            #[trigger] init[i],
        ) by {
            assert(init[i] == outcomes[i]);
        }
        law_outcomes_counted(shorter, init);
        let n = outcomes.len() - 1;
        assert(takes(states[n], states[n + 1], outcomes[n]));
        let before = states[n].run.summary.failed_ids@;
        let after = states[n + 1].run.summary.failed_ids@;
        assert(views(before).len() == before.len() && views(after).len() == after.len());
    }
}

/// Whether outcomes are in the order of the batch.
pub open spec fn in_batch_order(outcomes: Seq<Outcome>) -> bool {
    forall|i: int, j: int|
        0 <= i < j < outcomes.len() ==> (#[trigger] outcomes[i]).0 <= (#[trigger] outcomes[j]).0
}

/// Where an outcome goes among others in the order of the batch: before those of
/// the same place and of later ones.
pub open spec fn place_among(outcomes: Seq<Outcome>, index: usize) -> int
    decreases outcomes.len(),
{
    if outcomes.len() > 0 && outcomes.last().0 >= index {
        place_among(outcomes.drop_last(), index)
    } else {
        outcomes.len() as int
    }
}

/// Outcomes in the order of the batch. Those of the same place keep their order.
pub open spec fn ordered(outcomes: Seq<Outcome>) -> Seq<Outcome>
    decreases outcomes.len(),
{
    if outcomes.len() == 0 {
        Seq::empty()
    } else {
        let rest = ordered(outcomes.drop_first());
        rest.insert(place_among(rest, outcomes[0].0), outcomes[0])
    }
}

pub proof fn lemma_place_among(outcomes: Seq<Outcome>, index: usize)
    ensures
        0 <= place_among(outcomes, index) <= outcomes.len(),
        forall|k: int|
            place_among(outcomes, index) <= k < outcomes.len() ==> (#[trigger] outcomes[k]).0
                >= index,
        place_among(outcomes, index) > 0 ==> outcomes[place_among(outcomes, index) - 1].0 < index,
    decreases outcomes.len(),
{
    if outcomes.len() > 0 && outcomes.last().0 >= index {
        lemma_place_among(outcomes.drop_last(), index);
        assert forall|k: int|
            place_among(outcomes, index) <= k < outcomes.len() implies (#[trigger] outcomes[k]).0
            >= index by {
            if k < outcomes.len() - 1 {
                assert(outcomes[k] == outcomes.drop_last()[k]);
            }
        }
    }
}

/// Putting outcomes in order loses none and adds none, and they are then in the
/// order of the batch.
pub proof fn law_outcomes_ordered(outcomes: Seq<Outcome>)
    ensures
        in_batch_order(ordered(outcomes)),
        ordered(outcomes).to_multiset() == outcomes.to_multiset(),
        ordered(outcomes).len() == outcomes.len(),
    decreases outcomes.len(),
{
    if outcomes.len() > 0 {
        let first = outcomes[0];
        let rest = ordered(outcomes.drop_first());
        let at = place_among(rest, first.0);
        law_outcomes_ordered(outcomes.drop_first());
        lemma_place_among(rest, first.0);
        let all = rest.insert(at, first);
        assert forall|i: int, j: int| 0 <= i < j < all.len() implies (#[trigger] all[i]).0 <= (
        #[trigger] all[j]).0 by {
            if i < at && j >= at && at > 0 {
                assert(all[i] == rest[i]);
                assert(rest[i].0 <= rest[at - 1].0);
            }
        }
        broadcast use vstd::multiset::group_multiset_axioms;

        to_multiset_insert(rest, at, first);
        assert(outcomes =~= outcomes.drop_first().insert(0, first));
        to_multiset_insert(outcomes.drop_first(), 0, first);
        assert(all.to_multiset() =~= outcomes.to_multiset());
    } else {
        assert(ordered(outcomes) =~= outcomes);
    }
}

fn sort_outcomes(outcomes: Vec<Outcome>) -> (sorted: Vec<Outcome>)
    ensures
        sorted@ == ordered(outcomes@),
{
    let ghost all = outcomes@;
    let mut rest = outcomes;
    let mut sorted: Vec<Outcome> = Vec::new();
    assert(all.skip(all.len() as int) =~= Seq::<Outcome>::empty());
    assert(all.take(all.len() as int) =~= all);
    while rest.len() > 0
        invariant
            rest@.len() <= all.len(),
            rest@ == all.take(rest@.len() as int),
            sorted@ == ordered(all.skip(rest@.len() as int)),
        decreases rest.len(),
    {
        let ghost left = rest@.len() - 1;
        match rest.pop() {
            Some(item) => {
                assert(item == all[left]);
                assert(rest@ =~= all.take(left));
                let ghost tail = all.skip(left);
                assert(tail.drop_first() =~= all.skip(left + 1));
                assert(tail[0] == item);
                let mut at: usize = sorted.len();
                assert(sorted@.take(at as int) =~= sorted@);
                while at > 0 && sorted[at - 1].0 >= item.0
                    invariant
                        at <= sorted@.len(),
                        place_among(sorted@, item.0) == place_among(sorted@.take(at as int), item.0),
                    decreases at,
                {
                    assert(sorted@.take(at as int).drop_last() =~= sorted@.take(at - 1));
                    at -= 1;
                }
                assert(place_among(sorted@.take(at as int), item.0) == at);
                sorted.insert(at, item);
                assert(sorted@ == ordered(tail));
            },
            None => {},
        }
    }
    assert(all.skip(0) =~= all);
    sorted
}

impl FreshMerge {
    pub fn new(total: usize, options: &BatchOptions) -> (r: Self)
        ensures
            r.run.summary.total == total,
            r.run.summary.skipped == 0 && r.run.summary.success == 0 && r.run.summary.failed == 0,
            views(r.run.summary.failed_ids@) == Seq::<Seq<char>>::empty(),
            r.run.summary.output == options.output,
            r.run.summary.generated_files@ == Seq::<PathBuf>::empty(),
            r.run.first_error is None,
            r.run.continue_on_error == options.continue_on_error,
            r.records@ == Seq::<SchlibRecord>::empty(),
            r.library.components@ == Seq::<PcbComponent>::empty(),
            r.library.models@ == Seq::<PcbModel>::empty(),
    {
        FreshMerge {
            run: BatchRun::new(total, 0, options),
            records: Vec::new(),
            library: PcbLibrary::default(),
        }
    }

    /// Takes in a component that was exported.
    pub fn add_artifacts(&mut self, artifacts: MergeArtifacts<PcbLibrary>)
        requires
            old(self).run.summary.success < usize::MAX,
        ensures
            takes_in(*old(self), *final(self), artifacts),
    {
        if let Some(record) = artifacts.schlib_record {
            self.records.push(record);
        }
        if let Some(library) = artifacts.pcblib_library {
            append_pcblib_library_direct(&mut self.library, library);
        }
        self.run.record_success();
    }

    /// Takes in a component that failed.
    pub fn add_failure(&mut self, id: &str, error: AppError)
        requires
            old(self).run.summary.failed < usize::MAX,
        ensures
            takes_failure(*old(self), *final(self), id@, error),
    {
        self.run.record_failure(id, error);
    }

    /// Notes a task that was lost.
    pub fn note_lost_task(&mut self, error: &str)
        ensures
            match old(self).run.first_error {
                Some(first) => final(self).run.first_error == Some(first),
                None => final(self).run.first_error matches Some(e) && e.failure()
                    == Failure::Other("merge task join failed: "@ + error@),
            },
            final(self).run.summary == old(self).run.summary,
            final(self).run.continue_on_error == old(self).run.continue_on_error,
            final(self).records == old(self).records,
            final(self).library == old(self).library,
    {
        let mut message = "merge task join failed: ".to_owned();
        message.append(error);
        self.run.note_error(AppError::Other(message));
    }

    /// Takes in components that were exported beside each other, in the order
    /// of the batch.
    pub fn collect(&mut self, outcomes: Vec<Outcome>)
        requires
            old(self).run.summary.success + outcomes@.len() <= usize::MAX,
            old(self).run.summary.failed + outcomes@.len() <= usize::MAX,
        ensures
            takes_all(*old(self), *final(self), ordered(outcomes@)),
    {
        proof {
            law_outcomes_ordered(outcomes@);
        }
        let sorted = sort_outcomes(outcomes);
        let ghost all = sorted@;
        let ghost start = *self;
        let mut rest = sorted;
        let count: usize = rest.len();
        let mut done: usize = 0;
        let ghost mut states: Seq<FreshMerge> = seq![start];
        while done < count
            invariant
                count == all.len(),
                done <= count,
                rest@ == all.skip(done as int),
                is_course(states, all.take(done as int)),
                states[0] == start,
                states.last() == *self,
                self.run.summary.success <= start.run.summary.success + done,
                self.run.summary.failed <= start.run.summary.failed + done,
                start.run.summary.success + count <= usize::MAX,
                start.run.summary.failed + count <= usize::MAX,
            decreases count - done,
        {
            let ghost before = *self;
            let ghost taken = states;
            let (_, id, outcome) = rest.remove(0);
            assert(rest@ =~= all.skip(done + 1));
            match outcome {
                Ok(artifacts) => {
                    self.add_artifacts(artifacts);
                },
                Err(error) => {
                    self.add_failure(id.as_str(), error);
                },
            }
            proof {
                states = taken.push(*self);
                let next = all.take(done + 1);
                assert forall|i: int| 0 <= i < next.len() implies takes(
                    states[i],
                    states[i + 1],
                    #[trigger] next[i],
                ) by {
                    if i < done {
                        assert(all.take(done as int)[i] == next[i]);
                    } else {
                        assert(takes(before, *self, all[done as int]));
                    }
                }
            }
            done += 1;
        }
        assert(all.take(done as int) =~= all);
        assert(is_course(states, all));
    }

    /// What stands in the way of writing the library: an error that ends the
    /// batch, or that nothing was exported.
    pub fn check_exported(self) -> (r: Result<FreshMerge, AppError>)
        ensures
            if self.run.is_stopped() {
                r == Err::<FreshMerge, AppError>(self.run.first_error->0)
            } else if self.run.summary.success == 0 {
                match self.run.first_error {
                    Some(first) => r == Err::<FreshMerge, AppError>(first),
                    None => r matches Err(e) && e.failure() == Failure::Other(
                        "no components exported successfully for merged batch"@,
                    ),
                }
            } else {
                r == Ok::<FreshMerge, AppError>(self)
            },
    {
        if self.run.must_stop() || self.run.summary.success == 0 {
            match self.run.first_error {
                Some(first) => Err(first),
                None => Err(other_error("no components exported successfully for merged batch")),
            }
        } else {
            Ok(self)
        }
    }
}

/// Which merged files are to be written, and the error that comes then, if any.
#[derive(Debug)]
pub struct OutputPlan {
    pub schlib: bool,
    pub pcblib: bool,
    pub error: Option<AppError>,
}

/// Whether the merged schematics and the merged footprints are written.
pub open spec fn written_files(
    targets: ExportTargets,
    has_records: bool,
    has_components: bool,
) -> (bool, bool) {
    (
        targets.schlib && has_records,
        targets.pcblib && has_components && (targets.schlib ==> has_records),
    )
}

/// Files are written for the targets in turn, up to the first that has no components.
pub fn plan_outputs(targets: ExportTargets, has_records: bool, has_components: bool) -> (r:
    OutputPlan)
    ensures
        (r.schlib, r.pcblib) == written_files(targets, has_records, has_components),
        if targets.schlib && !has_records {
            r.error matches Some(e) && e.failure() == Failure::Other(
                "cannot write merged SchLib without any components"@,
            )
        } else if targets.pcblib && !has_components {
            r.error matches Some(e) && e.failure() == Failure::Other(
                "cannot write merged PcbLib without any components"@,
            )
        } else {
            r.error is None
        },
{
    if targets.schlib && !has_records {
        return OutputPlan {
            schlib: false,
            pcblib: false,
            error: Some(other_error("cannot write merged SchLib without any components")),
        };
    }
    if targets.pcblib && !has_components {
        return OutputPlan {
            schlib: targets.schlib,
            pcblib: false,
            error: Some(other_error("cannot write merged PcbLib without any components")),
        };
    }
    OutputPlan { schlib: targets.schlib, pcblib: targets.pcblib, error: None }
}

/// The bytes of merged files, to be written in this order, and the error that
/// comes then, if any.
#[derive(Debug)]
pub struct MergedOutputs {
    pub schlib: Option<Vec<u8>>,
    pub pcblib: Option<Vec<u8>>,
    pub error: Option<AppError>,
}

/// Whether the merged libraries that are asked for are small enough to be put
/// down as files.
pub open spec fn outputs_have_room(
    targets: ExportTargets,
    records: Seq<SchlibModel>,
    library: PcblibModel,
    params: Seq<char>,
) -> bool {
    &&& targets.schlib ==> total_weight(records) <= usize::MAX && schlib_size(records)
        <= CONTENT_LIMIT
    &&& targets.pcblib ==> pcblib_size(library, params) <= CONTENT_LIMIT
}

/// Finds out whether merged libraries can be handed to `write_merged_outputs`.
pub fn merged_outputs_have_room(
    targets: ExportTargets,
    schlib_records: &[SchlibRecord],
    pcblib_library: &PcblibRecordLibrary,
    params: &str,
) -> (r: bool)
    ensures
        r == outputs_have_room(targets, models(schlib_records@), pcblib_library@, params@),
{
    (!targets.schlib || schlib_has_room(schlib_records)) && (!targets.pcblib || pcblib_has_room(
        pcblib_library,
        params,
    ))
}

/// What goes wrong first when merged libraries are put down as files, if
/// anything does.
pub open spec fn outputs_failure(
    targets: ExportTargets,
    records: Seq<SchlibModel>,
    library: PcblibModel,
) -> Option<Failure> {
    if targets.schlib && records.len() == 0 {
        Some(Failure::Other("cannot write merged SchLib without any components"@))
    } else if targets.schlib && !schlib_fits(records) {
        Some(Failure::Io)
    } else if targets.pcblib && library.components.len() == 0 {
        Some(Failure::Other("cannot write merged PcbLib without any components"@))
    } else if targets.pcblib && !pcblib_fits(library) {
        Some(Failure::Io)
    } else {
        None
    }
}

/// Puts merged libraries down as files, up to the first thing that goes wrong.
pub fn write_merged_outputs(
    targets: ExportTargets,
    schlib_records: &[SchlibRecord],
    pcblib_library: &PcblibRecordLibrary,
    params: &str,
) -> (r: MergedOutputs)
    requires
        outputs_have_room(targets, models(schlib_records@), pcblib_library@, params@),
    ensures
        r.schlib is Some <==> targets.schlib && schlib_records@.len() > 0 && schlib_fits(
            models(schlib_records@),
        ),
        r.pcblib is Some <==> targets.pcblib && outputs_failure(
            targets,
            models(schlib_records@),
            pcblib_library@,
        ) is None,
        r.schlib matches Some(image) ==> (image_streams(image@) matches Some(streams)
            && holds_schlib(streams, models(schlib_records@))),
        r.pcblib matches Some(image) ==> (image_streams(image@) matches Some(streams)
            && holds_pcblib(streams, pcblib_library@, params@)),
        match r.error {
            Some(e) => outputs_failure(targets, models(schlib_records@), pcblib_library@) == Some(
                e.failure(),
            ),
            None => outputs_failure(targets, models(schlib_records@), pcblib_library@) is None,
        },
{
    let mut schlib: Option<Vec<u8>> = None;
    if targets.schlib {
        if schlib_records.len() == 0 {
            return MergedOutputs {
                schlib: None,
                pcblib: None,
                error: Some(other_error("cannot write merged SchLib without any components")),
            };
        }
        match write_schlib_records(schlib_records) {
            Ok(image) => {
                schlib = Some(image);
            },
            Err(e) => {
                return MergedOutputs { schlib: None, pcblib: None, error: Some(e) };
            },
        }
    }
    let mut pcblib: Option<Vec<u8>> = None;
    if targets.pcblib {
        if pcblib_library.components.len() == 0 {
            return MergedOutputs {
                schlib,
                pcblib: None,
                error: Some(other_error("cannot write merged PcbLib without any components")),
            };
        }
        match write_pcblib_records(pcblib_library, params) {
            Ok(image) => {
                pcblib = Some(image);
            },
            Err(e) => {
                return MergedOutputs { schlib, pcblib: None, error: Some(e) };
            },
        }
    }
    MergedOutputs { schlib, pcblib, error: None }
}

// Adding to a merged library

/// The library files are added to together: either both exist, or neither.
pub fn check_append_pair(targets: ExportTargets, schlib_exists: bool, pcblib_exists: bool) -> (r:
    Result<(), AppError>)
    ensures
        match r {
            Ok(_) => !(targets.schlib && targets.pcblib) || schlib_exists == pcblib_exists,
            Err(e) => targets.schlib && targets.pcblib && schlib_exists != pcblib_exists
                && e.failure() == Failure::Other(
                "append mode requires both merged SchLib and PcbLib to exist already, or neither"@,
            ),
        },
{
    if targets.schlib && targets.pcblib && schlib_exists != pcblib_exists {
        return Err(
            other_error(
                "append mode requires both merged SchLib and PcbLib to exist already, or neither",
            ),
        );
    }
    Ok(())
}

/// What is said of the libraries that are added to.
pub open spec fn loaded_text(records: nat, components: nat) -> Seq<char> {
    if records == 0 && components == 0 {
        "Append mode: no existing merged npnp library found, creating a new one"@
    } else {
        "Loaded existing merged output: SchLib components: "@ + decimal(records)
            + " | PcbLib components: "@ + decimal(components)
    }
}

pub fn loaded_message(records: usize, components: usize) -> (r: String)
    ensures
        r@ == loaded_text(records as nat, components as nat),
{
    if records == 0 && components == 0 {
        return "Append mode: no existing merged npnp library found, creating a new one".to_owned();
    }
    let mut text = "Loaded existing merged output: SchLib components: ".to_owned();
    text.append(decimal_text(records as u128).as_str());
    text.append(" | PcbLib components: ");
    text.append(decimal_text(components as u128).as_str());
    text
}

/// The part numbers of records that have a valid one.
pub open spec fn known_identities(records: Seq<SchlibRecord>) -> Seq<Seq<char>>
    decreases records.len(),
{
    if records.len() == 0 {
        Seq::empty()
    } else {
        let before = known_identities(records.drop_last());
        match optional(records.last().identity) {
            Some(identity) => match lcsc_id(identity) {
                Some(number) => before.push(number),
                None => before,
            },
            None => before,
        }
    }
}

/// The names of records, without regard to case.
pub open spec fn symbol_names(records: Seq<SchlibRecord>) -> Seq<Seq<char>> {
    records.map_values(|record: SchlibRecord| lower_text(record.name@))
}

/// The names of footprints, without regard to case.
pub open spec fn lower_footprint_names(components: Seq<PcblibComponentRecord>) -> Seq<Seq<char>> {
    components.map_values(|component: PcblibComponentRecord| lower_text(component.name@))
}

fn collect_identities(records: &Vec<SchlibRecord>) -> (r: Vec<String>)
    ensures
        views(r@) == known_identities(records@),
{
    let mut known: Vec<String> = Vec::new();
    let mut i: usize = 0;
    assert(records@.take(0) =~= Seq::<SchlibRecord>::empty());
    assert(views(known@) =~= Seq::<Seq<char>>::empty());
    while i < records.len()
        invariant
            i <= records@.len(),
            views(known@) == known_identities(records@.take(i as int)),
        decreases records.len() - i,
    {
        assert(records@.take(i + 1).drop_last() =~= records@.take(i as int));
        assert(records@.take(i + 1).last() == records@[i as int]);
        if let Some(identity) = &records[i].identity {
            if let Some(number) = normalize_lcsc_id(identity.as_str()) {
                let ghost before = views(known@);
                known.push(number);
                assert(views(known@) =~= before.push(number@));
            }
        }
        i += 1;
    }
    assert(records@.take(i as int) =~= records@);
    known
}

fn collect_symbol_names(records: &Vec<SchlibRecord>) -> (r: Vec<String>)
    ensures
        views(r@) == symbol_names(records@),
{
    let mut names: Vec<String> = Vec::new();
    let mut i: usize = 0;
    while i < records.len()
        invariant
            i <= records@.len(),
            names@.len() == i,
            forall|k: int| 0 <= k < i ==> (#[trigger] names@[k])@ == lower_text(records@[k].name@),
        decreases records.len() - i,
    {
        names.push(lowercased(records[i].name.as_str()));
        i += 1;
    }
    assert(views(names@) =~= symbol_names(records@));
    names
}

fn collect_footprint_names(components: &Vec<PcblibComponentRecord>) -> (r: Vec<String>)
    ensures
        views(r@) == lower_footprint_names(components@),
{
    let mut names: Vec<String> = Vec::new();
    let mut i: usize = 0;
    while i < components.len()
        invariant
            i <= components@.len(),
            names@.len() == i,
            forall|k: int|
                0 <= k < i ==> (#[trigger] names@[k])@ == lower_text(components@[k].name@),
        decreases components.len() - i,
    {
        names.push(lowercased(components[i].name.as_str()));
        i += 1;
    }
    assert(views(names@) =~= lower_footprint_names(components@));
    names
}

/// Additions to a merged library under way.
#[derive(Debug)]
pub struct AppendMerge {
    pub run: BatchRun,
    pub records: Vec<SchlibRecord>,
    pub library: PcblibRecordLibrary,
    pub known_identities: Vec<String>,
    pub used_symbol_names: Vec<String>,
    pub used_footprint_names: Vec<String>,
    pub added_any: bool,
}

/// The part number that is looked for among those that are known.
pub open spec fn sought_identity(id: Seq<char>) -> Seq<char> {
    match lcsc_id(id) {
        Some(number) => number,
        None => id,
    }
}

/// What is left to do when all components have been gone through.
#[derive(Debug)]
pub enum AppendEnd {
    /// The libraries are written.
    Write,
    /// Nothing was added, and the batch ends well.
    Unchanged,
    /// Nothing was added, and the batch ends in an error.
    Fail(AppError),
}

impl AppendMerge {
    pub fn new(
        total: usize,
        options: &BatchOptions,
        records: Vec<SchlibRecord>,
        library: PcblibRecordLibrary,
    ) -> (r: Self)
        ensures
            r.run.summary.total == total,
            r.run.summary.skipped == 0 && r.run.summary.success == 0 && r.run.summary.failed == 0,
            views(r.run.summary.failed_ids@) == Seq::<Seq<char>>::empty(),
            r.run.summary.output == options.output,
            r.run.summary.generated_files@ == Seq::<PathBuf>::empty(),
            r.run.first_error is None,
            r.run.continue_on_error == options.continue_on_error,
            r.records == records,
            r.library == library,
            views(r.known_identities@) == known_identities(records@),
            views(r.used_symbol_names@) == symbol_names(records@),
            views(r.used_footprint_names@) == lower_footprint_names(library.components@),
            !r.added_any,
    {
        let known_identities = collect_identities(&records);
        let used_symbol_names = collect_symbol_names(&records);
        let used_footprint_names = collect_footprint_names(&library.components);
        AppendMerge {
            run: BatchRun::new(total, 0, options),
            records,
            library,
            known_identities,
            used_symbol_names,
            used_footprint_names,
            added_any: false,
        }
    }

    /// Whether a component is in the library already.
    pub fn is_present(&self, id: &str) -> (r: bool)
        ensures
            r == views(self.known_identities@).contains(sought_identity(id@)),
    {
        match normalize_lcsc_id(id) {
            Some(number) => has_text(&self.known_identities, number.as_str()),
            None => has_text(&self.known_identities, id),
        }
    }

    /// Counts a component that is left out.
    pub fn record_skip(&mut self)
        requires
            old(self).run.summary.skipped < usize::MAX,
        ensures
            *final(self) == (AppendMerge {
                run: BatchRun {
                    summary: BatchSummary {
                        skipped: (old(self).run.summary.skipped + 1) as usize,
                        ..old(self).run.summary
                    },
                    ..old(self).run
                },
                ..*old(self)
            }),
    {
        self.run.summary.skipped = self.run.summary.skipped + 1;
    }

    /// Takes in a component that was exported.
    pub fn add_artifacts(&mut self, artifacts: MergeArtifacts<PcblibRecordLibrary>)
        requires
            old(self).run.summary.success < usize::MAX,
        ensures
            counts_success(old(self).run.summary, final(self).run.summary),
            final(self).run.first_error == old(self).run.first_error,
            final(self).run.continue_on_error == old(self).run.continue_on_error,
            final(self).records@ == with_record(old(self).records@, artifacts.schlib_record),
            match artifacts.pcblib_library {
                Some(library) => {
                    &&& final(self).library.components@ == old(self).library.components@
                        + library.components@
                    &&& final(self).library.models@ == old(self).library.models@ + library.models@
                },
                None => final(self).library == old(self).library,
            },
            views(final(self).known_identities@) == views(old(self).known_identities@).push(
                artifacts.identity@,
            ),
            final(self).used_symbol_names == old(self).used_symbol_names,
            final(self).used_footprint_names == old(self).used_footprint_names,
            final(self).added_any,
    {
        let ghost before = views(self.known_identities@);
        let ghost identity = artifacts.identity@;
        self.known_identities.push(artifacts.identity);
        assert(views(self.known_identities@) =~= before.push(identity));
        if let Some(record) = artifacts.schlib_record {
            self.records.push(record);
        }
        if let Some(library) = artifacts.pcblib_library {
            append_pcblib_library(&mut self.library, library);
        }
        self.run.record_success();
        self.added_any = true;
    }

    /// Takes in a component that failed.
    pub fn add_failure(&mut self, id: &str, error: AppError)
        requires
            old(self).run.summary.failed < usize::MAX,
        ensures
            counts_failure(old(self).run.summary, final(self).run.summary, id@),
            final(self).run.first_error == if old(self).run.first_error is Some {
                old(self).run.first_error
            } else {
                Some(error)
            },
            *final(self) == (AppendMerge { run: final(self).run, ..*old(self) }),
            final(self).run.continue_on_error == old(self).run.continue_on_error,
    {
        self.run.record_failure(id, error);
    }

    /// What the batch comes to.
    pub fn end(&mut self) -> (r: AppendEnd)
        ensures
            if old(self).added_any {
                r is Write
            } else if old(self).run.fails() {
                match old(self).run.first_error {
                    Some(first) => r == AppendEnd::Fail(first),
                    None => r matches AppendEnd::Fail(e) && e.failure() == Failure::Other(
                        "append merge failed"@,
                    ),
                }
            } else {
                r is Unchanged
            },
            *final(self) == (AppendMerge {
                run: BatchRun { first_error: final(self).run.first_error, ..old(self).run },
                ..*old(self)
            }),
    {
        if self.added_any {
            return AppendEnd::Write;
        }
        if self.run.summary.failed > 0 && !self.run.continue_on_error {
            return match self.run.first_error.take() {
                Some(first) => AppendEnd::Fail(first),
                None => AppendEnd::Fail(other_error("append merge failed")),
            };
        }
        AppendEnd::Unchanged
    }
}

/// A component that was added is present from then on: under the part number
/// that its artifacts carry, and under that of its record when the library is
/// loaded again.
pub proof fn law_added_is_present(
    known: Seq<Seq<char>>,
    records: Seq<SchlibRecord>,
    record: SchlibRecord,
    value: Seq<char>,
    id: Seq<char>,
)
    requires
        lcsc_id(value) == Some(id),
        optional(record.identity) == Some(value),
    ensures
        known.push(id).contains(sought_identity(id)),
        known_identities(records.push(record)).contains(sought_identity(id)),
{
    law_lcsc_id_normal(value);
    assert(known.push(id)[known.len() as int] == id);
    let before = known_identities(records);
    assert(records.push(record).drop_last() =~= records);
    assert(before.push(id)[before.len() as int] == id);
}

} // verus!
