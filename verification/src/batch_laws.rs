//! What a batch does, whatever its options and its components are.

use vstd::prelude::*;
use crate::batch::{
    active, bar_filled, cleared, drawn, elapsed_text, digits_end, id_at, ids_before, is_first_free_name,
    known_as, law_merged_names_fresh, lemma_digits_end, library_name, listed_ids, merged_name,
    mode_label, noted, numbered_name, status_line, subject, targets_label, targets_result,
    wanted_name, BatchProgress, BatchSummary, ExportTargets,
};
use crate::batch_runs::{
    completed_in, counts_failure, counts_success, in_batch_order, is_course, known_identities,
    law_outcomes_ordered, lemma_place_among, link_is_valid, loaded_text,
    lower_footprint_names, ordered, outputs_failure, place_among, sought_identity, symbol_names,
    takes, unfinished, worker_count, written_files, BatchRun, FreshMerge, Outcome,
};
use crate::calendar::two_digits;
use crate::pcb_records::{pcblib_fits, PcblibComponentRecord, PcblibModel};
use crate::schlib::{lcsc_id, optional, schlib_fits, SchlibModel, SchlibRecord};
use crate::text::{
    all_digits, decimal, digits_value, has_suffix, is_digit, law_distinct, lemma_decimal,
    lemma_split_join, lemma_split_without, lower_text, same_but_case, split, trim, views,
};
use crate::text_laws::{all_white, is_bare, law_filled, law_trim};

verus! {

// Targets

/// Whenever options give targets, the full export is both targets, and without it
/// each is a target exactly where its own option is set. Targets are never both off.
pub proof fn law_targets(
    parallel: nat,
    append: bool,
    merge: bool,
    schlib: bool,
    pcblib: bool,
    full: bool,
)
    ensures
        targets_result(parallel, append, merge, schlib, pcblib, full) matches Ok(targets) ==> {
            &&& full ==> targets.schlib && targets.pcblib
            &&& !full ==> targets.schlib == schlib && targets.pcblib == pcblib
            &&& targets.schlib || targets.pcblib
        },
{
}

/// Options give targets exactly where there is someone to do the work, something
/// to export, and, for additions, a merged library with schematics.
pub proof fn law_targets_given(
    parallel: nat,
    append: bool,
    merge: bool,
    schlib: bool,
    pcblib: bool,
    full: bool,
)
    ensures
        targets_result(parallel, append, merge, schlib, pcblib, full) is Ok <==> parallel > 0 && (
        schlib || pcblib || full) && (append ==> merge && (schlib || full)),
{
}

/// What targets are called names each of them and nothing else.
pub proof fn law_target_labels(targets: ExportTargets)
    ensures
        "SchLib"@.is_prefix_of(targets_label(targets)) <==> targets.schlib,
        has_suffix(targets_label(targets), "PcbLib"@) <==> targets.pcblib,
        targets_label(targets).contains('+') <==> targets.schlib && targets.pcblib,
{
    reveal_strlit("SchLib");
    reveal_strlit("PcbLib");
    reveal_strlit("SchLib+PcbLib");
    reveal_strlit("none");
    let label = targets_label(targets);
    let n = label.len() as int;
    assert("SchLib"@[0] == 'S' && "SchLib"@[5] == 'b');
    assert("PcbLib"@[0] == 'P');
    if targets.schlib && targets.pcblib {
        assert(label.take(6) =~= "SchLib"@);
        assert(label.skip(n - 6) =~= "PcbLib"@);
        assert(label[6] == '+');
    } else if targets.schlib {
        assert(label.take(6) =~= "SchLib"@);
        if has_suffix(label, "PcbLib"@) {
            assert(label.skip(n - 6)[0] == 'P');
        }
    } else if targets.pcblib {
        assert(label.skip(n - 6) =~= "PcbLib"@);
        assert(label[0] == 'P');
    } else {
        assert(label[0] == 'n' && label[3] == 'e');
        if has_suffix(label, "PcbLib"@) {
            assert(label.len() >= 6);
        }
    }
}

/// The three modes of a batch have three different labels, and additions make a
/// difference to merged libraries alone.
pub proof fn law_mode_labels(merge: bool, append: bool, other_merge: bool, other_append: bool)
    ensures
        mode_label(merge, append) == mode_label(other_merge, other_append) <==> merge == other_merge
            && (merge ==> append == other_append),
        "merge"@.is_prefix_of(mode_label(merge, append)) <==> merge,
{
    reveal_strlit("merge");
    reveal_strlit("merge+append");
    reveal_strlit("batch");
    assert("merge"@[0] == 'm' && "batch"@[0] == 'b');
    if merge {
        assert(mode_label(merge, append).take(5) =~= "merge"@);
    }
}

// Part numbers in a list

proof fn lemma_ids_found(text: Seq<char>, n: int, at: int)
    requires
        0 <= at < n <= text.len(),
        id_at(text, at) is Some,
    ensures
        ids_before(text, n).contains(id_at(text, at)->0),
    decreases n,
{
    let all = ids_before(text, n);
    if at == n - 1 {
        assert(all[all.len() - 1] == id_at(text, at)->0);
    } else {
        lemma_ids_found(text, n - 1, at);
        let before = ids_before(text, n - 1);
        let i = choose|i: int| 0 <= i < before.len() && before[i] == id_at(text, at)->0;
        assert(all[i] == before[i]);
    }
}

/// Every part number in a text is listed: a `C` in either case with digits behind
/// it, wherever it stands and whatever but a digit follows it.
pub proof fn law_ids_are_found(before: Seq<char>, c: char, digits: Seq<char>, after: Seq<char>)
    requires
        c == 'C' || c == 'c',
        digits.len() > 0,
        all_digits(digits),
        after.len() > 0 ==> !is_digit(after[0]),
    ensures
        listed_ids(before + seq![c] + digits + after).contains(seq!['C'] + digits),
{
    let text = before + seq![c] + digits + after;
    let at = before.len() as int;
    assert(text[at] == c);
    assert forall|i: int| at + 1 <= i < at + 1 + digits.len() implies is_digit(
        #[trigger] text[i],
    ) by {
        assert(text[i] == digits[i - at - 1]);
    }
    lemma_digits_end(text, at + 1);
    let end = digits_end(text, at + 1);
    if end < at + 1 + digits.len() {
        assert(is_digit(text[end]));
    }
    if end > at + 1 + digits.len() {
        assert(text[at + 1 + digits.len()] == after[0]);
    }
    assert(text.subrange(at + 1, end) =~= digits);
    assert(id_at(text, at) == Some(seq!['C'] + digits));
    lemma_ids_found(text, text.len() as int, at);
    law_distinct(ids_before(text, text.len() as int));
}

proof fn lemma_ids_stand(text: Seq<char>, n: int, k: int) -> (at: int)
    requires
        0 <= n <= text.len(),
        0 <= k < ids_before(text, n).len(),
    ensures
        0 <= at < n,
        id_at(text, at) == Some(ids_before(text, n)[k]),
    decreases n,
{
    if n > 0 {
        let before = ids_before(text, n - 1);
        if k < before.len() {
            lemma_ids_stand(text, n - 1, k)
        } else {
            n - 1
        }
    } else {
        0
    }
}

/// Nothing else is listed: each listed part number stands in the text as a `C` in
/// either case and its digits, and no digit follows there.
pub proof fn law_ids_stand_in_text(text: Seq<char>, k: int)
    requires
        0 <= k < listed_ids(text).len(),
    ensures
        exists|at: int|
            0 <= at && at + listed_ids(text)[k].len() <= text.len() && (#[trigger] text[at] == 'C'
                || text[at] == 'c') && text.subrange(at + 1, at + listed_ids(text)[k].len())
                == listed_ids(text)[k].skip(1) && (at + listed_ids(text)[k].len() < text.len()
                ==> !is_digit(text[at + listed_ids(text)[k].len()])),
{
    let found = ids_before(text, text.len() as int);
    let id = listed_ids(text)[k];
    law_distinct(found);
    assert(listed_ids(text).contains(id));
    let j = choose|j: int| 0 <= j < found.len() && found[j] == id;
    let at = lemma_ids_stand(text, text.len() as int, j);
    lemma_digits_end(text, at + 1);
    let end = digits_end(text, at + 1);
    assert(id =~= seq!['C'] + text.subrange(at + 1, end));
    assert(text.subrange(at + 1, at + id.len()) =~= id.skip(1));
    assert(text[at] == 'C' || text[at] == 'c');
}

// The status line

/// What is shown of a component is its part number and name, whole where there is
/// room, and else the start of them with three dots.
pub proof fn law_subject(id: Seq<char>, name: Seq<char>)
    ensures
        trim(name).len() == 0 ==> subject(id, Some(name)) == subject(id, None),
        id.len() <= 52 ==> subject(id, None) == id,
        trim(name).len() > 0 && id.len() + 1 + name.len() <= 52 ==> subject(id, Some(name)) == id
            + seq![' '] + name,
        trim(name).len() > 0 && id.len() + 1 + name.len() > 52 ==> subject(id, Some(name)) == (id
            + seq![' '] + name).take(49) + seq!['.', '.', '.'],
        id.len() > 52 ==> subject(id, None) == id.take(49) + seq!['.', '.', '.'],
{
    reveal_strlit(" ");
    reveal_strlit("...");
    assert("..."@ =~= seq!['.', '.', '.']);
    assert(" "@ =~= seq![' ']);
}

proof fn lemma_two_digits(n: nat)
    ensures
        digits_value(two_digits(n)) == n,
        all_digits(two_digits(n)),
        n < 100 ==> two_digits(n).len() == 2,
{
    lemma_decimal(n);
    if n < 10 {
        let text = two_digits(n);
        assert(text.drop_last() =~= seq!['0']);
        reveal_with_fuel(digits_value, 3);
        assert(seq!['0'].drop_last() =~= Seq::<char>::empty());
        assert(digits_value(seq!['0']) == 0);
        assert(decimal(n).drop_last() =~= Seq::<char>::empty());
        assert(text.last() == decimal(n).last());
    } else if n < 100 {
        reveal_with_fuel(decimal, 3);
    }
}

proof fn lemma_digits_no_colon(text: Seq<char>)
    requires
        all_digits(text),
    ensures
        !text.contains(':'),
{
    if text.contains(':') {
        let i = choose|i: int| 0 <= i < text.len() && text[i] == ':';
        assert(is_digit(text[i]));
    }
}

/// A time span is written so that it can be read back: its numbers, parted by
/// colons, are the hours, minutes and seconds that make it up. Minutes and seconds
/// have two digits and are below sixty, and hours stand there from the first on.
pub proof fn law_elapsed(seconds: nat)
    ensures
        ({
            let parts = split(elapsed_text(seconds), ':');
            let n = parts.len() as int;
            &&& n == if seconds < 3600 {
                2int
            } else {
                3int
            }
            &&& digits_value(parts[n - 1]) < 60 && parts[n - 1].len() == 2
            &&& digits_value(parts[n - 2]) < 60 && parts[n - 2].len() == 2
            &&& seconds == digits_value(parts[n - 1]) + 60 * digits_value(parts[n - 2]) + if n == 3 {
                3600 * digits_value(parts[0])
            } else {
                0
            }
        }),
{
    reveal_strlit(":");
    assert(":"@ =~= seq![':']);
    let h = two_digits(seconds / 3600);
    let m = two_digits(seconds / 60 % 60);
    let s = two_digits(seconds % 60);
    lemma_two_digits(seconds / 3600);
    lemma_two_digits(seconds / 60 % 60);
    lemma_two_digits(seconds % 60);
    lemma_digits_no_colon(h);
    lemma_digits_no_colon(m);
    lemma_digits_no_colon(s);
    lemma_split_without(h, ':');
    lemma_split_without(m, ':');
    lemma_split_without(s, ':');
    lemma_split_join(m, ':', s);
    let rest = m + seq![':'] + s;
    lemma_split_join(h, ':', rest);
    assert(split(rest, ':') =~= seq![m, s]);
    if seconds >= 3600 {
        assert(elapsed_text(seconds) =~= h + seq![':'] + rest);
        assert(split(elapsed_text(seconds), ':') =~= seq![h, m, s]);
    } else {
        assert(elapsed_text(seconds) =~= rest);
    }
}

/// The bar is empty at the start and full at the end. In between it shows what is
/// done, rounded to the nearest of its places.
pub proof fn law_bar(completed: nat, total: nat)
    requires
        0 < total,
        completed <= total,
    ensures
        bar_filled(0, total) == 0,
        bar_filled(total, total) == 24,
        bar_filled(completed, total) <= 24,
        2 * (bar_filled(completed, total) * total - completed * 24) <= total,
        2 * (completed * 24 - bar_filled(completed, total) * total) <= total,
{
    let all = completed * 24 + total / 2;
    let filled = all / total;
    lemma_division(all, total);
    lemma_division(total / 2, total);
    lemma_division(total * 24 + total / 2, total);
    assert((total / 2) / total == 0) by (nonlinear_arith)
        requires
            total > 0,
            (total / 2) / total * total <= total / 2,
            total / 2 < total,
    ;
    assert((total * 24 + total / 2) / total == 24) by (nonlinear_arith)
        requires
            total > 0,
            (total * 24 + total / 2) / total * total <= total * 24 + total / 2,
            total * 24 + total / 2 < ((total * 24 + total / 2) / total + 1) * total,
            total / 2 < total,
    ;
    assert(0 * 24 + total / 2 == total / 2);
    assert((filled + 1) * total == filled * total + total) by (nonlinear_arith);
    if filled > 24 {
        assert(filled * total >= 25 * total) by (nonlinear_arith)
            requires
                filled >= 25,
                total > 0,
        ;
    }
}

proof fn lemma_division(a: nat, b: nat)
    requires
        b > 0,
    ensures
        a / b * b <= a,
        a < (a / b + 1) * b,
{
    assert(a / b * b <= a && a < (a / b + 1) * b) by (nonlinear_arith)
        requires
            b > 0,
    ;
}

/// The more is done, the more of the bar is filled.
pub proof fn law_bar_grows(less: nat, more: nat, total: nat)
    requires
        less <= more,
    ensures
        bar_filled(less, total) <= bar_filled(more, total),
{
    if total > 0 {
        let a = less * 24 + total / 2;
        let b = more * 24 + total / 2;
        assert(a / total <= b / total) by (nonlinear_arith)
            requires
                a <= b,
                total > 0,
        ;
    }
}

/// No more components are worked on than there are workers and than are left, and
/// as many as the fewer of the two.
pub proof fn law_active(total: nat, completed: nat, parallel: nat)
    ensures
        active(total, completed, parallel) <= parallel,
        completed <= total ==> active(total, completed, parallel) + completed <= total,
        active(total, completed, parallel) < parallel ==> active(total, completed, parallel)
            + completed >= total,
        completed >= total ==> active(total, completed, parallel) == 0,
{
}

/// The status line shows a bar of 24 places, of which as many are filled as are
/// counted, and behind it each number under its own word.
pub proof fn law_status_line(progress: BatchProgress, elapsed: nat)
    requires
        progress.completed <= progress.total,
    ensures
        ({
            let line = status_line(progress, elapsed);
            let filled = bar_filled(progress.completed as nat, progress.total as nat);
            let counts = "] "@ + decimal(progress.completed as nat) + "/"@ + decimal(
                progress.total as nat,
            ) + " | ok:"@ + decimal(progress.success as nat) + " skip:"@ + decimal(
                progress.skipped as nat,
            ) + " fail:"@ + decimal(progress.failed as nat) + " | active:"@;
            &&& line[0] == '['
            &&& forall|i: int| 0 <= i < filled ==> #[trigger] line[1 + i] == '#'
            &&& forall|i: int| filled <= i < 24 ==> #[trigger] line[1 + i] == '-'
            &&& line.len() >= 25 + counts.len()
            &&& line.skip(25).take(counts.len() as int) == counts
            &&& has_suffix(line, " | elapsed:"@ + elapsed_text(elapsed))
            &&& progress.last_subject matches Some(last) ==> has_suffix(
                line,
                " | last:"@ + last@ + " | elapsed:"@ + elapsed_text(elapsed),
            )
        }),
{
    reveal_strlit("[");
    let line = status_line(progress, elapsed);
    let filled = bar_filled(progress.completed as nat, progress.total as nat);
    let counts = "] "@ + decimal(progress.completed as nat) + "/"@ + decimal(
        progress.total as nat,
    ) + " | ok:"@ + decimal(progress.success as nat) + " skip:"@ + decimal(progress.skipped as nat)
        + " fail:"@ + decimal(progress.failed as nat) + " | active:"@;
    assert(filled <= 24);
    assert(line.skip(25).take(counts.len() as int) =~= counts);
    let end = " | elapsed:"@ + elapsed_text(elapsed);
    assert(line.skip(line.len() - end.len()) =~= end);
    if let Some(last) = progress.last_subject {
        let tail = " | last:"@ + last@ + " | elapsed:"@ + elapsed_text(elapsed);
        assert(line.skip(line.len() - tail.len()) =~= tail);
    }
}

/// A status line covers the one that was there: it starts at the start of its
/// line, and where it is the shorter one spaces fill up what is left of the other.
pub proof fn law_drawn(line: Seq<char>, width: nat)
    ensures
        drawn(line, width).len() == 1 + if line.len() < width {
            width
        } else {
            line.len()
        },
        drawn(line, width)[0] == '\r',
        drawn(line, width).skip(1).take(line.len() as int) == line,
        forall|i: int| 1 + line.len() <= i < drawn(line, width).len() ==> #[trigger] drawn(
            line,
            width,
        )[i] == ' ',
{
    reveal_strlit("\r");
    assert(drawn(line, width).skip(1).take(line.len() as int) =~= line);
}

/// Where there is a status line, it is written over with spaces, from its start
/// and back to it, and where there is none nothing is written.
pub proof fn law_cleared(width: nat)
    ensures
        cleared(0) == Seq::<char>::empty(),
        width > 0 ==> cleared(width).len() == width + 2 && cleared(width)[0] == '\r'
            && cleared(width).last() == '\r',
        forall|i: int| 0 < i <= width ==> #[trigger] cleared(width)[i] == ' ',
{
    reveal_strlit("\r");
}

/// A message stands on a line of its own: behind what clears the status line, and
/// before what draws it again.
pub proof fn law_noted(progress: BatchProgress, message: Seq<char>, elapsed: nat)
    ensures
        ({
            let clear = cleared(progress.last_render_width as nat);
            let text = noted(progress, message, elapsed);
            &&& (clear + message + seq!['\n', '\r']).is_prefix_of(text)
            &&& has_suffix(text, status_line(progress, elapsed))
        }),
{
    reveal_strlit("\n");
    reveal_strlit("\r");
    let clear = cleared(progress.last_render_width as nat);
    let text = noted(progress, message, elapsed);
    let start = clear + message + seq!['\n', '\r'];
    let line = status_line(progress, elapsed);
    assert(text =~= start + line);
    assert(text.take(start.len() as int) =~= start);
    assert(text.skip(text.len() - line.len()) =~= line);
}

/// Completed components are counted one by one and never beyond their total, and
/// nothing else changes.
pub proof fn law_advanced(progress: BatchProgress, m: nat, n: nat)
    requires
        progress.wf(),
    ensures
        progress.advanced(n).wf(),
        progress.completed + n <= progress.total ==> progress.advanced(n).completed
            == progress.completed + n,
        progress.completed + n >= progress.total ==> progress.advanced(n).completed
            == progress.total,
        progress.advanced(m).advanced(n) == progress.advanced(m + n),
        progress.advanced(n).success == progress.success,
        progress.advanced(n).failed == progress.failed,
        progress.advanced(n).skipped == progress.skipped,
        progress.advanced(n).total == progress.total,
{
}

// Names

/// A component has the name that it asks for where that is free, else that with
/// its part number, and where that is taken too a number from 2 on behind it, the
/// first that is free.
pub proof fn law_merged_names(base: Seq<char>, id: Seq<char>, used: Seq<Seq<char>>)
    ensures
        ({
            let name = merged_name(base, id, used);
            let second = base + seq!['_'] + id;
            &&& !used.contains(lower_text(base)) ==> name == base
            &&& used.contains(lower_text(base)) && !used.contains(lower_text(second)) ==> name
                == second
            &&& used.contains(lower_text(base)) && used.contains(lower_text(second)) ==> exists|
                n: nat,
            |
                n >= 2 && name == second + seq!['_'] + #[trigger] decimal(n) && forall|k: nat|
                    2 <= k < n ==> used.contains(
                        lower_text(second + seq!['_'] + #[trigger] decimal(k)),
                    )
        }),
{
    reveal_strlit("_");
    assert("_"@ =~= seq!['_']);
    law_merged_names_fresh(base, id, used);
    let second = base + seq!['_'] + id;
    assert(numbered_name(base, id, 1) =~= second);
    if used.contains(lower_text(base)) {
        let n = choose|index: nat| is_first_free_name(base, id, used, index);
        let free = crate::batch::lemma_first_free_name_exists(base, id, used, 1);
        assert(is_first_free_name(base, id, used, n));
        if !used.contains(lower_text(second)) {
            if n > 1 {
                assert(used.contains(lower_text(numbered_name(base, id, 1))));
            }
        } else {
            assert(n >= 2);
            let name = merged_name(base, id, used);
            assert(name == second + seq!['_'] + decimal(n));
            assert forall|k: nat| 2 <= k < n implies used.contains(
                lower_text(second + seq!['_'] + #[trigger] decimal(k)),
            ) by {
                assert(numbered_name(base, id, k) == second + seq!['_'] + decimal(k));
            }
        }
    }
}

/// White space around a name does not count, and a blank name gives way: that of a
/// component to its part number, that of a library to the stem of the input.
pub proof fn law_blank_names(
    before: Seq<char>,
    name: Seq<char>,
    after: Seq<char>,
    id: Seq<char>,
    stem: Option<Seq<char>>,
)
    requires
        all_white(before),
        is_bare(name),
        all_white(after),
    ensures
        name.len() > 0 ==> wanted_name(before + name + after, id) == name,
        name.len() == 0 ==> wanted_name(before + name + after, id) == id,
        name.len() > 0 ==> library_name(Some(before + name + after), stem) == name,
        name.len() == 0 ==> library_name(Some(before + name + after), stem) == library_name(
            None,
            stem,
        ),
        name.len() > 0 ==> library_name(None, Some(before + name + after)) == name,
        name.len() == 0 ==> library_name(None, Some(before + name + after)) == library_name(
            None,
            None,
        ),
        library_name(None, None).len() > 0,
{
    reveal_strlit("MergedLib");
    law_trim(before, name, after);
}

/// A component is known by the part number of what was found for it, in its normal
/// form, and where that is none by the one that was asked for.
pub proof fn law_known_as(c: char, digits: Seq<char>, other: Seq<char>, id: Seq<char>)
    requires
        c == 'C' || c == 'c',
        digits.len() > 0,
        all_digits(digits),
        lcsc_id(other) is None,
    ensures
        known_as(Some(seq![c] + digits), id) == seq!['C'] + digits,
        known_as(Some(other), id) == id,
        known_as(None, id) == id,
{
    crate::record_laws::law_part_numbers(c, digits);
}

// The course of a batch

/// The lines of a checkpoint are taken one by one: of two contents on top of each
/// other first those of the one are listed, then those of the other, and of one
/// line what stands on it, white space aside, unless it is blank.
pub proof fn law_checkpoint_lines(a: Seq<char>, b: Seq<char>, line: Seq<char>)
    requires
        !line.contains('\n'),
    ensures
        completed_in(a + seq!['\n'] + b) == completed_in(a) + completed_in(b),
        trim(line).len() > 0 ==> completed_in(line) == seq![trim(line)],
        trim(line).len() == 0 ==> completed_in(line) == Seq::<Seq<char>>::empty(),
{
    lemma_split_join(a, '\n', b);
    law_filled(split(a, '\n'), split(b, '\n'), line);
    lemma_split_without(line, '\n');
}

/// What is left to do keeps its order: of two lists behind each other it is what is
/// left of the one and then of the other.
pub proof fn law_unfinished_in_order(
    a: Seq<Seq<char>>,
    b: Seq<Seq<char>>,
    completed: Seq<Seq<char>>,
    force: bool,
)
    ensures
        unfinished(a + b, completed, force) == unfinished(a, completed, force) + unfinished(
            b,
            completed,
            force,
        ),
    decreases b.len(),
{
    if b.len() == 0 {
        assert(a + b =~= a);
        assert(unfinished(a, completed, force) + unfinished(b, completed, force) =~= unfinished(
            a,
            completed,
            force,
        ));
    } else {
        assert((a + b).drop_last() =~= a + b.drop_last());
        law_unfinished_in_order(a, b.drop_last(), completed, force);
        assert(unfinished(a + b, completed, force) =~= unfinished(a, completed, force) + unfinished(
            b,
            completed,
            force,
        ));
    }
}

/// There is always someone to do the work, and more than one exactly where more
/// than one was asked for and more than one component is left: then as many as
/// were asked for.
pub proof fn law_workers(parallel: nat, pending: nat)
    ensures
        worker_count(parallel, pending) >= 1,
        worker_count(parallel, pending) > 1 <==> parallel > 1 && pending > 1,
        parallel > 1 && pending > 1 ==> worker_count(parallel, pending) == parallel,
{
}

/// A component that was exported adds one to the exported, and one that failed adds
/// one to the failed and its part number at the end of theirs. Nothing else changes.
pub proof fn law_counts(before: BatchSummary, after: BatchSummary, id: Seq<char>)
    requires
        before.success < usize::MAX,
        before.failed < usize::MAX,
    ensures
        counts_success(before, after) ==> after.success == before.success + 1 && after.failed
            == before.failed && after.failed_ids == before.failed_ids,
        counts_failure(before, after, id) ==> after.failed == before.failed + 1 && after.success
            == before.success && after.failed_ids@.len() == before.failed_ids@.len() + 1
            && after.failed_ids@.last()@ == id,
        counts_success(before, after) || counts_failure(before, after, id) ==> after.total
            == before.total && after.skipped == before.skipped && after.output == before.output
            && after.generated_files == before.generated_files,
{
    if counts_failure(before, after, id) {
        let all = views(after.failed_ids@);
        assert(all.len() == after.failed_ids@.len());
        assert(views(before.failed_ids@).len() == before.failed_ids@.len());
        assert(all.last() == after.failed_ids@.last()@);
    }
}

/// In the course of a merge what was taken in stays, and each outcome adds its own
/// at the end: a component that was exported its schematic record and its
/// footprints, one that failed nothing.
pub proof fn law_course_adds(states: Seq<FreshMerge>, outcomes: Seq<Outcome>, i: int, j: int)
    requires
        is_course(states, outcomes),
        0 <= i < outcomes.len(),
        i <= j <= outcomes.len(),
    ensures
        states[i].records@.is_prefix_of(states[j].records@),
        states[i].library.components@.is_prefix_of(states[j].library.components@),
        outcomes[i].2 matches Ok(artifacts) ==> {
            &&& artifacts.schlib_record matches Some(record) ==> states[i + 1].records@
                == states[i].records@.push(record)
            &&& artifacts.schlib_record is None ==> states[i + 1].records@ == states[i].records@
            &&& artifacts.pcblib_library matches Some(library) ==> states[i
                + 1].library.components@ == states[i].library.components@ + library.components@
        },
        outcomes[i].2 is Err ==> states[i + 1].records@ == states[i].records@ && states[i
            + 1].library.components@ == states[i].library.components@,
    decreases j - i,
{
    assert(takes(states[i], states[i + 1], outcomes[i]));
    if i < j {
        let a = states[i];
        let b = states[i + 1];
        let c = states[j];
        assert(a.records@.is_prefix_of(b.records@)) by {
            assert(b.records@.take(a.records@.len() as int) =~= a.records@);
        }
        assert(a.library.components@.is_prefix_of(b.library.components@)) by {
            assert(b.library.components@.take(a.library.components@.len() as int)
                =~= a.library.components@);
        }
        if i + 1 < outcomes.len() {
            law_course_adds(states, outcomes, i + 1, j);
            assert(c.records@.take(a.records@.len() as int) =~= a.records@);
            assert(c.library.components@.take(a.library.components@.len() as int)
                =~= a.library.components@);
        }
    } else {
        let a = states[i];
        assert(a.records@.take(a.records@.len() as int) =~= a.records@);
        assert(a.library.components@.take(a.library.components@.len() as int)
            =~= a.library.components@);
    }
}

/// The error that a merge keeps is the first that comes up in its course.
pub proof fn law_course_first_error(states: Seq<FreshMerge>, outcomes: Seq<Outcome>, n: int)
    requires
        is_course(states, outcomes),
        states[0].run.first_error is None,
        0 <= n < outcomes.len(),
        outcomes[n].2 is Err,
        forall|i: int| 0 <= i < n ==> (#[trigger] outcomes[i]).2 is Ok,
    ensures
        states.last().run.first_error == Some(outcomes[n].2->Err_0),
{
    lemma_no_error(states, outcomes, n);
    assert(takes(states[n], states[n + 1], outcomes[n]));
    lemma_error_stays(states, outcomes, n + 1, outcomes.len() as int);
}

proof fn lemma_no_error(states: Seq<FreshMerge>, outcomes: Seq<Outcome>, n: int)
    requires
        is_course(states, outcomes),
        states[0].run.first_error is None,
        0 <= n <= outcomes.len(),
        forall|i: int| 0 <= i < n ==> (#[trigger] outcomes[i]).2 is Ok,
    ensures
        states[n].run.first_error is None,
    decreases n,
{
    if n > 0 {
        lemma_no_error(states, outcomes, n - 1);
        assert(takes(states[n - 1], states[n], outcomes[n - 1]));
    }
}

proof fn lemma_error_stays(states: Seq<FreshMerge>, outcomes: Seq<Outcome>, m: int, n: int)
    requires
        is_course(states, outcomes),
        0 <= m <= n <= outcomes.len(),
        states[m].run.first_error is Some,
    ensures
        states[n].run.first_error == states[m].run.first_error,
    decreases n - m,
{
    if m < n {
        lemma_error_stays(states, outcomes, m, n - 1);
        assert(takes(states[n - 1], states[n], outcomes[n - 1]));
    }
}

/// Merged files are put down without a failure exactly where each target that was
/// asked for has components and they fit.
pub proof fn law_outputs(targets: ExportTargets, records: Seq<SchlibModel>, library: PcblibModel)
    ensures
        outputs_failure(targets, records, library) is None <==> (targets.schlib ==> records.len()
            > 0 && schlib_fits(records)) && (targets.pcblib ==> library.components.len() > 0
            && pcblib_fits(library)),
{
}

/// What is loaded is reported with the number of schematics and then that of
/// footprints, where there are any.
pub proof fn law_loaded(records: nat, components: nat)
    ensures
        records > 0 || components > 0 ==> has_suffix(
            loaded_text(records, components),
            "SchLib components: "@ + decimal(records) + " | PcbLib components: "@ + decimal(
                components,
            ),
        ),
{
    reveal_strlit("SchLib components: ");
    reveal_strlit("Loaded existing merged output: SchLib components: ");
    let tail = "SchLib components: "@ + decimal(records) + " | PcbLib components: "@ + decimal(
        components,
    );
    let text = loaded_text(records, components);
    if records > 0 || components > 0 {
        assert(text.skip(text.len() - tail.len()) =~= tail);
    }
}

/// The part numbers that a library knows are those of its records, in normal form,
/// and no others.
pub proof fn law_known_identities(records: Seq<SchlibRecord>, number: Seq<char>)
    ensures
        known_identities(records).contains(number) <==> exists|i: int|
            0 <= i < records.len() && (optional((#[trigger] records[i]).identity) matches Some(value)
                && lcsc_id(value) == Some(number)),
    decreases records.len(),
{
    if records.len() > 0 {
        let init = records.drop_last();
        law_known_identities(init, number);
        let all = known_identities(records);
        let before = known_identities(init);
        let n = records.len() - 1;
        assert(records[n] == records.last());
        if before.contains(number) {
            let k = choose|k: int| 0 <= k < before.len() && before[k] == number;
            assert(all[k] == number);
            let i = choose|i: int|
                0 <= i < init.len() && (optional((#[trigger] init[i]).identity) matches Some(value)
                    && lcsc_id(value) == Some(number));
            assert(records[i] == init[i]);
        } else if all.contains(number) {
            let k = choose|k: int| 0 <= k < all.len() && all[k] == number;
            if k < before.len() {
                assert(before[k] == number);
            }
        }
        if exists|i: int|
            0 <= i < records.len() && (optional((#[trigger] records[i]).identity) matches Some(value)
                && lcsc_id(value) == Some(number)) {
            let i = choose|i: int|
                0 <= i < records.len() && (optional((#[trigger] records[i]).identity) matches Some(
                    value,
                ) && lcsc_id(value) == Some(number));
            if i < n {
                assert(init[i] == records[i]);
            } else {
                assert(all[all.len() - 1] == number);
            }
        }
    }
}

/// A component is looked for under the normal form of its part number, so that the
/// case of its letter makes no difference, and under any other text as it is.
pub proof fn law_sought(digits: Seq<char>, other: Seq<char>)
    requires
        digits.len() > 0,
        all_digits(digits),
        lcsc_id(other) is None,
    ensures
        sought_identity(seq!['c'] + digits) == seq!['C'] + digits,
        sought_identity(seq!['C'] + digits) == seq!['C'] + digits,
        sought_identity(other) == other,
{
    crate::record_laws::law_part_numbers('c', digits);
    crate::record_laws::law_part_numbers('C', digits);
}

/// The names that are taken in a library are those of all its symbols, or of all
/// its footprints, in small letters.
pub proof fn law_taken_names(
    records: Seq<SchlibRecord>,
    components: Seq<PcblibComponentRecord>,
    i: int,
)
    ensures
        symbol_names(records).len() == records.len(),
        lower_footprint_names(components).len() == components.len(),
        0 <= i < records.len() ==> symbol_names(records).contains(lower_text(records[i].name@)),
        0 <= i < components.len() ==> lower_footprint_names(components).contains(
            lower_text(components[i].name@),
        ),
{
    if 0 <= i < records.len() {
        assert(symbol_names(records)[i] == lower_text(records[i].name@));
    }
    if 0 <= i < components.len() {
        assert(lower_footprint_names(components)[i] == lower_text(components[i].name@));
    }
}

/// In the course of a merge the models of footprints are kept and added to like the
/// footprints themselves.
pub proof fn law_course_adds_models(states: Seq<FreshMerge>, outcomes: Seq<Outcome>, i: int)
    requires
        is_course(states, outcomes),
        0 <= i < outcomes.len(),
    ensures
        outcomes[i].2 matches Ok(artifacts) ==> {
            &&& artifacts.pcblib_library matches Some(library) ==> states[i + 1].library.models@
                == states[i].library.models@ + library.models@
            &&& artifacts.pcblib_library is None ==> states[i + 1].library == states[i].library
        },
        outcomes[i].2 is Err ==> states[i + 1].library == states[i].library,
        states[i + 1].run.continue_on_error == states[i].run.continue_on_error,
        states[i + 1].run.summary.total == states[i].run.summary.total,
        states[i + 1].run.summary.skipped == states[i].run.summary.skipped,
{
    assert(takes(states[i], states[i + 1], outcomes[i]));
}

/// A link to a footprint is valid exactly where the library has one of that name, in
/// whatever case.
pub proof fn law_links(names: Seq<Seq<char>>, name: Seq<char>, i: int)
    ensures
        0 <= i < names.len() && lower_text(names[i]) == lower_text(name) ==> link_is_valid(
            names,
            name,
        ),
        (forall|j: int| 0 <= j < names.len() ==> lower_text(#[trigger] names[j]) != lower_text(name))
            ==> !link_is_valid(names, name),
{
    if 0 <= i < names.len() && lower_text(names[i]) == lower_text(name) {
        assert(same_but_case(names[i], name));
    }
}

/// Drawing the status line changes nothing of the progress but the width that the
/// line takes up, which is that of the line.
pub proof fn law_redrawn(after: BatchProgress, before: BatchProgress, elapsed: nat)
    requires
        after.redrawn_from(before, elapsed),
    ensures
        after.total == before.total && after.completed == before.completed && after.parallel
            == before.parallel,
        after.success == before.success && after.skipped == before.skipped && after.failed
            == before.failed,
        after.last_subject == before.last_subject,
        status_line(before, elapsed).len() <= usize::MAX ==> after.last_render_width
            == status_line(before, elapsed).len(),
        before.is_balanced() ==> after.is_balanced(),
        before.is_balanced() <==> before.completed == before.success + before.skipped
            + before.failed,
{
}

/// Those outcomes of one place that are among `outcomes`, in their order.
pub open spec fn of_place(outcomes: Seq<Outcome>, place: usize) -> Seq<Outcome> {
    outcomes.filter(|o: Outcome| o.0 == place)
}

proof fn lemma_filter_concat(a: Seq<Outcome>, b: Seq<Outcome>, place: usize)
    ensures
        of_place(a + b, place) == of_place(a, place) + of_place(b, place),
    decreases b.len(),
{
    reveal(Seq::filter);
    if b.len() == 0 {
        assert(a + b =~= a);
        assert(of_place(a, place) + of_place(b, place) =~= of_place(a, place));
    } else {
        assert((a + b).drop_last() =~= a + b.drop_last());
        lemma_filter_concat(a, b.drop_last(), place);
        assert(of_place(a + b, place) =~= of_place(a, place) + of_place(b, place));
    }
}

proof fn lemma_filter_none(a: Seq<Outcome>, place: usize)
    requires
        forall|i: int| 0 <= i < a.len() ==> (#[trigger] a[i]).0 != place,
    ensures
        of_place(a, place) == Seq::<Outcome>::empty(),
    decreases a.len(),
{
    reveal(Seq::filter);
    if a.len() > 0 {
        let init = a.drop_last();
        assert(a[a.len() - 1].0 != place);
        assert forall|i: int| 0 <= i < init.len() implies (#[trigger] init[i]).0 != place by {
            assert(init[i] == a[i]);
        }
        lemma_filter_none(init, place);
    }
}

proof fn lemma_filter_insert(rest: Seq<Outcome>, at: int, first: Outcome, place: usize)
    requires
        0 <= at <= rest.len(),
    ensures
        of_place(rest.insert(at, first), place) == of_place(rest.take(at), place) + of_place(
            seq![first],
            place,
        ) + of_place(rest.skip(at), place),
        of_place(rest, place) == of_place(rest.take(at), place) + of_place(rest.skip(at), place),
{
    let left = rest.take(at);
    let right = rest.skip(at);
    assert(rest.insert(at, first) =~= left + seq![first] + right);
    assert(rest =~= left + right);
    lemma_filter_concat(left + seq![first], right, place);
    lemma_filter_concat(left, seq![first], place);
    lemma_filter_concat(left, right, place);
}

/// An outcome that goes before all others of its place, and is not behind any, comes
/// first among them.
proof fn lemma_inserted_first(rest: Seq<Outcome>, first: Outcome, place: usize)
    requires
        in_batch_order(rest),
    ensures
        of_place(rest.insert(place_among(rest, first.0), first), place) == of_place(
            seq![first],
            place,
        ) + of_place(rest, place),
{
    let at = place_among(rest, first.0);
    lemma_place_among(rest, first.0);
    lemma_filter_insert(rest, at, first, place);
    let left = rest.take(at);
    let none = Seq::<Outcome>::empty();
    if first.0 == place {
        assert forall|i: int| 0 <= i < left.len() implies (#[trigger] left[i]).0 != place by {
            assert(left[i] == rest[i]);
            assert(i == at - 1 || rest[i].0 <= rest[at - 1].0);
        }
        lemma_filter_none(left, place);
        assert(none + of_place(seq![first], place) =~= of_place(seq![first], place));
        assert(none + of_place(rest.skip(at), place) =~= of_place(rest.skip(at), place));
    } else {
        let one = seq![first];
        assert forall|i: int| 0 <= i < one.len() implies (#[trigger] one[i]).0 != place by {
            assert(one[i] == first);
        }
        lemma_filter_none(one, place);
        assert(of_place(left, place) + none =~= of_place(left, place));
        assert(none + of_place(rest, place) =~= of_place(rest, place));
    }
}

/// Putting outcomes in the order of the batch keeps those of the same place in the
/// order in which they came.
pub proof fn law_outcomes_keep_order(outcomes: Seq<Outcome>, place: usize)
    ensures
        of_place(ordered(outcomes), place) == of_place(outcomes, place),
    decreases outcomes.len(),
{
    if outcomes.len() > 0 {
        let tail = outcomes.drop_first();
        law_outcomes_keep_order(tail, place);
        law_outcomes_ordered(tail);
        lemma_inserted_first(ordered(tail), outcomes[0], place);
        assert(outcomes =~= seq![outcomes[0]] + tail);
        lemma_filter_concat(seq![outcomes[0]], tail, place);
    } else {
        assert(ordered(outcomes) =~= outcomes);
    }
}

/// A batch that goes on in spite of errors neither stops nor fails. Any other stops
/// with its first error, and fails exactly where a component failed.
pub proof fn law_batch_ends(run: BatchRun)
    ensures
        run.continue_on_error ==> !run.is_stopped() && !run.fails(),
        !run.continue_on_error ==> (run.is_stopped() <==> run.first_error is Some),
        !run.continue_on_error ==> (run.fails() <==> run.summary.failed > 0),
{
}

/// At least one component is worked on at a time, and as many as were asked for.
pub proof fn law_places(parallel: usize)
    ensures
        BatchProgress::places(parallel) >= 1,
        parallel >= 1 ==> BatchProgress::places(parallel) == parallel,
{
}

/// A merged file is written only where it is asked for and has components. Schematics
/// without components keep the footprints from being written too, and nothing else
/// keeps a file from it.
pub proof fn law_written_files(targets: ExportTargets, has_records: bool, has_components: bool)
    ensures
        ({
            let (schlib, pcblib) = written_files(targets, has_records, has_components);
            &&& schlib ==> targets.schlib && has_records
            &&& pcblib ==> targets.pcblib && has_components
            &&& targets.schlib && !has_records ==> !schlib && !pcblib
            &&& targets.schlib && has_records ==> schlib
            &&& targets.pcblib && has_components && !(targets.schlib && !has_records) ==> pcblib
        }),
{
}

/// Each component that is done is counted once: as exported, left out or failed, and as
/// completed while there are any left. The other counts stay, and the component is the
/// one that is shown.
pub proof fn law_progress_counts(progress: BatchProgress, last: Option<String>, count: nat)
    requires
        progress.wf(),
        progress.success < usize::MAX,
        progress.skipped + count < usize::MAX,
        progress.failed < usize::MAX,
    ensures
        ({
            let p = progress.after_success(last);
            &&& p.success == progress.success + 1
            &&& p.skipped == progress.skipped && p.failed == progress.failed
            &&& p.last_subject == last
            &&& progress.completed < progress.total ==> p.completed == progress.completed + 1
        }),
        ({
            let p = progress.after_skip(last);
            &&& p.skipped == progress.skipped + 1
            &&& p.success == progress.success && p.failed == progress.failed
            &&& p.last_subject == last
            &&& progress.completed < progress.total ==> p.completed == progress.completed + 1
        }),
        ({
            let p = progress.after_failure(last);
            &&& p.failed == progress.failed + 1
            &&& p.success == progress.success && p.skipped == progress.skipped
            &&& p.last_subject == last
            &&& progress.completed < progress.total ==> p.completed == progress.completed + 1
        }),
        ({
            let p = progress.after_seeding(count);
            &&& p.skipped == progress.skipped + count
            &&& p.success == progress.success && p.failed == progress.failed
            &&& p.last_subject == progress.last_subject
            &&& progress.completed + count <= progress.total ==> p.completed == progress.completed
                + count
        }),
{
}

} // verus!
