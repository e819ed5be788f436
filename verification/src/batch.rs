//! Exporting many components: what to do with which of them, how progress is
//! shown, and how merged libraries are put together.

use std::path::PathBuf;
use vstd::prelude::*;
use crate::calendar::{two_digit_text, two_digits};
use crate::error::{other_error, AppError, Failure};
use crate::schlib::{lcsc_id, normalize_lcsc_id, optional};
use crate::text::{
    char_is_digit, chars_of, decimal, decimal_text, distinct, has_text, is_digit, lemma_decimal,
    lemma_decimal_injective, lemma_family_used, lower_text, lowercased, text_of,
    trim, trimmed, views,
};

verus! {

/// A path of the standard library, carried through unopened.
#[verifier::external_type_specification]
#[verifier::external_body]
pub struct ExPathBuf(std::path::PathBuf);

/// `PathBuf::clone` gives the same path.
pub assume_specification[ <std::path::PathBuf as std::clone::Clone>::clone ](
    path: &std::path::PathBuf,
) -> (r: std::path::PathBuf)
    ensures
        r == *path,
;

/// What a batch is asked to do.
#[derive(Debug, Clone)]
pub struct BatchOptions {
    pub input: PathBuf,
    pub output: PathBuf,
    pub schlib: bool,
    pub pcblib: bool,
    pub full: bool,
    pub merge: bool,
    pub append: bool,
    pub library_name: Option<String>,
    pub parallel: usize,
    pub continue_on_error: bool,
    pub lcsc_english: bool,
    pub force: bool,
}

/// What a batch came to.
#[derive(Debug, Clone)]
pub struct BatchSummary {
    pub total: usize,
    pub skipped: usize,
    pub success: usize,
    pub failed: usize,
    pub failed_ids: Vec<String>,
    pub output: PathBuf,
    pub generated_files: Vec<PathBuf>,
}

/// The kinds of library that a batch exports.
#[derive(Debug, Clone, Copy, PartialEq, Eq, Structural)]
pub struct ExportTargets {
    pub schlib: bool,
    pub pcblib: bool,
}

/// What resolving the targets comes to: the first thing that is wrong with the
/// options, or the targets.
pub open spec fn targets_result(
    parallel: nat,
    append: bool,
    merge: bool,
    schlib: bool,
    pcblib: bool,
    full: bool,
) -> Result<ExportTargets, Failure> {
    if parallel == 0 {
        Err(Failure::Other("--parallel must be at least 1"@))
    } else if append && !merge {
        Err(Failure::Other("--append is only supported together with --merge"@))
    } else if !schlib && !pcblib && !full {
        Err(
            Failure::Other(
                "at least one export target must be selected (--schlib, --pcblib, or --full)"@,
            ),
        )
    } else if append && !schlib && !full {
        Err(Failure::Other("--append currently requires --schlib or --full"@))
    } else {
        Ok(ExportTargets { schlib: schlib || full, pcblib: pcblib || full })
    }
}

/// What the targets are called in messages.
pub open spec fn targets_label(targets: ExportTargets) -> Seq<char> {
    if targets.schlib && targets.pcblib {
        "SchLib+PcbLib"@
    } else if targets.schlib {
        "SchLib"@
    } else if targets.pcblib {
        "PcbLib"@
    } else {
        "none"@
    }
}

impl ExportTargets {
    pub fn resolve(options: &BatchOptions) -> (r: Result<Self, AppError>)
        ensures
            match r {
                Ok(targets) => targets_result(
                    options.parallel as nat,
                    options.append,
                    options.merge,
                    options.schlib,
                    options.pcblib,
                    options.full,
                ) == Ok::<ExportTargets, Failure>(targets),
                Err(e) => targets_result(
                    options.parallel as nat,
                    options.append,
                    options.merge,
                    options.schlib,
                    options.pcblib,
                    options.full,
                ) == Err::<ExportTargets, Failure>(e.failure()),
            },
    {
        if options.parallel == 0 {
            return Err(other_error("--parallel must be at least 1"));
        }
        if options.append && !options.merge {
            return Err(other_error("--append is only supported together with --merge"));
        }
        let schlib = options.schlib || options.full;
        let pcblib = options.pcblib || options.full;
        if !schlib && !pcblib {
            return Err(
                other_error(
                    "at least one export target must be selected (--schlib, --pcblib, or --full)",
                ),
            );
        }
        if options.append && !schlib {
            return Err(other_error("--append currently requires --schlib or --full"));
        }
        Ok(ExportTargets { schlib, pcblib })
    }

    pub fn label(self) -> (r: &'static str)
        ensures
            r@ == targets_label(self),
    {
        if self.schlib && self.pcblib {
            "SchLib+PcbLib"
        } else if self.schlib {
            "SchLib"
        } else if self.pcblib {
            "PcbLib"
        } else {
            "none"
        }
    }
}

/// What the mode of a batch is called in messages.
pub open spec fn mode_label(merge: bool, append: bool) -> Seq<char> {
    if merge && append {
        "merge+append"@
    } else if merge {
        "merge"@
    } else {
        "batch"@
    }
}

pub fn batch_mode_label(options: &BatchOptions) -> (r: &'static str)
    ensures
        r@ == mode_label(options.merge, options.append),
{
    if options.merge && options.append {
        "merge+append"
    } else if options.merge {
        "merge"
    } else {
        "batch"
    }
}

// Part numbers in a list

/// The index behind the digits of `text` from `at` on.
pub open spec fn digits_end(text: Seq<char>, at: int) -> int
    decreases text.len() - at,
{
    if 0 <= at < text.len() && is_digit(text[at]) {
        digits_end(text, at + 1)
    } else {
        at
    }
}

/// The part number that starts at `at`, if one does: a `C` in either case and
/// all the digits behind it, at least one.
pub open spec fn id_at(text: Seq<char>, at: int) -> Option<Seq<char>> {
    if (text[at] == 'C' || text[at] == 'c') && at + 1 < text.len() && is_digit(text[at + 1]) {
        Some(seq!['C'] + text.subrange(at + 1, digits_end(text, at + 1)))
    } else {
        None
    }
}

/// The part numbers that start before `n`, in order.
pub open spec fn ids_before(text: Seq<char>, n: int) -> Seq<Seq<char>>
    decreases n,
{
    if n <= 0 {
        Seq::empty()
    } else {
        let before = ids_before(text, n - 1);
        match id_at(text, n - 1) {
            Some(id) => before.push(id),
            None => before,
        }
    }
}

/// The different part numbers in `text`, in the order in which they first come.
pub open spec fn listed_ids(text: Seq<char>) -> Seq<Seq<char>> {
    distinct(ids_before(text, text.len() as int))
}

pub proof fn lemma_digits_end(text: Seq<char>, at: int)
    requires
        0 <= at <= text.len(),
    ensures
        at <= digits_end(text, at) <= text.len(),
        forall|i: int| at <= i < digits_end(text, at) ==> is_digit(#[trigger] text[i]),
        digits_end(text, at) < text.len() ==> !is_digit(text[digits_end(text, at)]),
    decreases text.len() - at,
{
    if at < text.len() && is_digit(text[at]) {
        lemma_digits_end(text, at + 1);
    }
}

/// No part number starts among digits.
pub proof fn lemma_no_ids_in_digits(text: Seq<char>, from: int, to: int)
    requires
        0 <= from <= to <= text.len(),
        forall|i: int| from <= i < to ==> is_digit(#[trigger] text[i]),
    ensures
        ids_before(text, to) == ids_before(text, from),
    decreases to - from,
{
    if from < to {
        lemma_no_ids_in_digits(text, from, to - 1);
        assert(is_digit(text[to - 1]));
    }
}

pub fn parse_lcsc_ids(text: &str) -> (ids: Vec<String>)
    ensures
        views(ids@) == listed_ids(text@),
{
    let chars = chars_of(text);
    let ghost all = text@;
    let mut ids: Vec<String> = Vec::new();
    let mut index: usize = 0;
    assert(views(ids@) =~= Seq::<Seq<char>>::empty());
    while index < chars.len()
        invariant
            index <= chars@.len(),
            chars@ == all,
            all == text@,
            views(ids@) == distinct(ids_before(all, index as int)),
        decreases chars.len() - index,
    {
        let c = chars[index];
        let start: usize = index + 1;
        if (c == 'C' || c == 'c') && start < chars.len() && char_is_digit(chars[start]) {
            let mut end: usize = start;
            while end < chars.len() && char_is_digit(chars[end])
                invariant
                    start <= end <= chars@.len(),
                    digits_end(chars@, start as int) == digits_end(chars@, end as int),
                decreases chars.len() - end,
            {
                end += 1;
            }
            proof {
                lemma_digits_end(all, start as int);
                lemma_no_ids_in_digits(all, start as int, end as int);
                let before = ids_before(all, index as int);
                let id = id_at(all, index as int)->0;
                assert(before.push(id).drop_last() =~= before);
            }
            let digits = text_of(chars.as_slice(), start, end);
            let mut id = String::new();
            id.push('C');
            id.append(digits.as_str());
            assert(id@ =~= id_at(all, index as int)->0);
            if !has_text(&ids, id.as_str()) {
                let ghost before = views(ids@);
                let ghost new = id@;
                ids.push(id);
                assert(views(ids@) =~= before.push(new));
            }
            index = end;
        } else {
            index += 1;
        }
    }
    ids
}

/// Every listed part number is there once and in its normal form.
pub proof fn law_listed_ids(text: Seq<char>)
    ensures
        listed_ids(text).no_duplicates(),
        forall|i: int|
            0 <= i < listed_ids(text).len() ==> lcsc_id(#[trigger] listed_ids(text)[i]) == Some(
                listed_ids(text)[i],
            ),
{
    let found = ids_before(text, text.len() as int);
    crate::text::law_distinct(found);
    let listed = listed_ids(text);
    assert forall|i: int| 0 <= i < listed.len() implies lcsc_id(#[trigger] listed[i]) == Some(
        listed[i],
    ) by {
        assert(listed.contains(listed[i]));
        let k = choose|k: int| 0 <= k < found.len() && found[k] == listed[i];
        lemma_found_ids(text, text.len() as int, k);
    }
}

proof fn lemma_found_ids(text: Seq<char>, n: int, k: int)
    requires
        0 <= n <= text.len(),
        0 <= k < ids_before(text, n).len(),
    ensures
        lcsc_id(ids_before(text, n)[k]) == Some(ids_before(text, n)[k]),
    decreases n,
{
    if n > 0 {
        let before = ids_before(text, n - 1);
        if k < before.len() {
            lemma_found_ids(text, n - 1, k);
        } else {
            let id = id_at(text, n - 1)->0;
            lemma_digits_end(text, n);
            let end = digits_end(text, n);
            assert(digits_end(text, n) == digits_end(text, n + 1));
            let digits = text.subrange(n, end);
            assert forall|i: int| 0 <= i < digits.len() implies is_digit(#[trigger] digits[i]) by {
                assert(is_digit(text[n + i]));
            }
            assert(id.skip(1) =~= digits);
            assert(id[0] == 'C');
            assert(is_digit(id.last())) by {
                assert(id.last() == digits[digits.len() - 1]);
            }
            assert(trim(id) == id);
            assert(seq!['C'] + id.skip(1) =~= id);
        }
    }
}

// Progress

/// What is shown of the component at hand: its part number and, where there is
/// one, its name; cut short with dots where it is over 52 characters long.
pub open spec fn subject(id: Seq<char>, detail: Option<Seq<char>>) -> Seq<char> {
    let text = match detail {
        Some(detail) => if trim(detail).len() > 0 {
            id + " "@ + detail
        } else {
            id
        },
        None => id,
    };
    if text.len() > 52 {
        text.take(49) + "..."@
    } else {
        text
    }
}

/// The view of an optional text.
pub open spec fn detail_view(detail: Option<&str>) -> Option<Seq<char>> {
    match detail {
        Some(text) => Some(text@),
        None => None,
    }
}

pub fn format_subject(id: &str, detail: Option<&str>) -> (r: String)
    ensures
        r@ == subject(id@, detail_view(detail)),
{
    let mut text = id.to_owned();
    if let Some(detail) = detail {
        let bare = trimmed(detail);
        if !bare.as_str().is_empty() {
            text.append(" ");
            text.append(detail);
        }
    }
    let chars = chars_of(text.as_str());
    if chars.len() > 52 {
        let mut short = text_of(chars.as_slice(), 0, 49);
        assert(text@.subrange(0, 49) =~= text@.take(49));
        short.append("...");
        short
    } else {
        text
    }
}

/// What is shown is never longer than 52 characters.
pub proof fn law_subject_length(id: Seq<char>, detail: Option<Seq<char>>)
    ensures
        subject(id, detail).len() <= 52,
{
    reveal_strlit("...");
}

/// A time span in hours, minutes and seconds, the hours only where there are any.
pub open spec fn elapsed_text(seconds: nat) -> Seq<char> {
    let rest = two_digits(seconds / 60 % 60) + ":"@ + two_digits(seconds % 60);
    if seconds >= 3600 {
        two_digits(seconds / 3600) + ":"@ + rest
    } else {
        rest
    }
}

pub fn format_elapsed(seconds: u64) -> (r: String)
    ensures
        r@ == elapsed_text(seconds as nat),
{
    let hours: u64 = seconds / 3_600;
    let minutes = two_digit_text(seconds / 60 % 60);
    let secs = two_digit_text(seconds % 60);
    let mut text = String::new();
    if seconds >= 3_600 {
        let hours = two_digit_text(hours);
        text = hours;
        text.append(":");
    }
    text.append(minutes.as_str());
    text.append(":");
    text.append(secs.as_str());
    assert(text@ =~= elapsed_text(seconds as nat));
    text
}

/// `c`, `n` times.
pub open spec fn repeated(c: char, n: nat) -> Seq<char> {
    Seq::new(n, |i: int| c)
}

fn push_repeated(text: &mut String, c: char, n: usize)
    ensures
        final(text)@ == old(text)@ + repeated(c, n as nat),
{
    let mut i: usize = 0;
    assert(text@ =~= old(text)@ + repeated(c, 0));
    while i < n
        invariant
            i <= n,
            text@ == old(text)@ + repeated(c, i as nat),
        decreases n - i,
    {
        text.push(c);
        i += 1;
        assert(text@ =~= old(text)@ + repeated(c, i as nat));
    }
}

fn push_number(text: &mut String, n: usize)
    ensures
        final(text)@ == old(text)@ + decimal(n as nat),
{
    let digits = decimal_text(n as u128);
    text.append(digits.as_str());
}

/// How far a batch has come, and the status line that shows it.
#[derive(Debug)]
pub struct BatchProgress {
    pub total: usize,
    pub completed: usize,
    pub success: usize,
    pub skipped: usize,
    pub failed: usize,
    pub parallel: usize,
    pub last_subject: Option<String>,
    /// How many characters of the line are taken by the status that is shown.
    pub last_render_width: usize,
}

/// How many of the 24 places of the bar are filled: as many as `completed` has
/// of `total`, rounded to the nearest.
pub open spec fn bar_filled(completed: nat, total: nat) -> nat {
    if total == 0 || (completed * 24 + total / 2) / total > 24 {
        24
    } else {
        (completed * 24 + total / 2) / total
    }
}

/// How many components are being worked on.
pub open spec fn active(total: nat, completed: nat, parallel: nat) -> nat {
    let left = if total > completed {
        (total - completed) as nat
    } else {
        0
    };
    if left < parallel {
        left
    } else {
        parallel
    }
}

/// The text of the status line.
pub open spec fn status_line(progress: BatchProgress, elapsed: nat) -> Seq<char> {
    let filled = bar_filled(progress.completed as nat, progress.total as nat);
    "["@ + repeated('#', filled) + repeated('-', (24 - filled) as nat) + "] "@ + decimal(
        progress.completed as nat,
    ) + "/"@ + decimal(progress.total as nat) + " | ok:"@ + decimal(progress.success as nat)
        + " skip:"@ + decimal(progress.skipped as nat) + " fail:"@ + decimal(
        progress.failed as nat,
    ) + " | active:"@ + decimal(
        active(progress.total as nat, progress.completed as nat, progress.parallel as nat),
    ) + " | last:"@ + (match optional(progress.last_subject) {
        Some(subject) => subject,
        None => "-"@,
    }) + " | elapsed:"@ + elapsed_text(elapsed)
}

/// What draws a status line of the given text over one of `width` characters.
pub open spec fn drawn(line: Seq<char>, width: nat) -> Seq<char> {
    "\r"@ + line + repeated(
        ' ',
        if width > line.len() {
            (width - line.len()) as nat
        } else {
            0
        },
    )
}

/// What clears a status line of `width` characters.
pub open spec fn cleared(width: nat) -> Seq<char> {
    if width == 0 {
        Seq::empty()
    } else {
        "\r"@ + repeated(' ', width) + "\r"@
    }
}

/// What prints a message above the status line and draws that again.
pub open spec fn noted(progress: BatchProgress, message: Seq<char>, elapsed: nat) -> Seq<char> {
    cleared(progress.last_render_width as nat) + message + "\n"@ + drawn(
        status_line(progress, elapsed),
        0,
    )
}

impl BatchProgress {
    /// Whether no more is completed than there is, and the bar can be computed.
    pub open spec fn wf(self) -> bool {
        self.completed <= self.total && self.total * 24 + self.total / 2 <= usize::MAX
    }

    /// Whether every completed component is counted as exported, left out or failed.
    pub open spec fn is_balanced(self) -> bool {
        self.success + self.skipped + self.failed == self.completed
    }

    /// This progress with `n` more components completed, as far as there are any.
    pub open spec fn advanced(self, n: nat) -> BatchProgress {
        BatchProgress {
            completed: if self.completed + n < self.total {
                (self.completed + n) as usize
            } else {
                self.total
            },
            ..self
        }
    }

    /// This progress with `count` more components that were done before.
    pub open spec fn after_seeding(self, count: nat) -> BatchProgress {
        BatchProgress { skipped: (self.skipped + count) as usize, ..self.advanced(count) }
    }

    /// This progress with one more component exported, left out or failed, of which
    /// `last` is shown.
    pub open spec fn after_success(self, last: Option<String>) -> BatchProgress {
        BatchProgress {
            success: (self.success + 1) as usize,
            last_subject: last,
            ..self.advanced(1)
        }
    }

    pub open spec fn after_skip(self, last: Option<String>) -> BatchProgress {
        BatchProgress {
            skipped: (self.skipped + 1) as usize,
            last_subject: last,
            ..self.advanced(1)
        }
    }

    pub open spec fn after_failure(self, last: Option<String>) -> BatchProgress {
        BatchProgress {
            failed: (self.failed + 1) as usize,
            last_subject: last,
            ..self.advanced(1)
        }
    }

    /// Whether only the width of the status line differs from `other`, and it is
    /// that of the line of this progress.
    pub open spec fn redrawn_from(self, other: BatchProgress, elapsed: nat) -> bool {
        self == (BatchProgress {
            last_render_width: status_line(other, elapsed).len() as usize,
            ..other
        })
    }

    /// How many components are worked on at a time where `parallel` are asked for.
    pub open spec fn places(parallel: usize) -> usize {
        if parallel == 0 {
            1
        } else {
            parallel
        }
    }

    pub fn new(total: usize, parallel: usize) -> (r: Self)
        requires
            total * 24 + total / 2 <= usize::MAX,
        ensures
            r.wf(),
            r.is_balanced(),
            r.total == total,
            r.completed == 0 && r.success == 0 && r.skipped == 0 && r.failed == 0,
            r.parallel == Self::places(parallel),
            r.last_subject is None,
            r.last_render_width == 0,
    {
        BatchProgress {
            total,
            completed: 0,
            success: 0,
            skipped: 0,
            failed: 0,
            parallel: if parallel == 0 {
                1
            } else {
                parallel
            },
            last_subject: None,
            last_render_width: 0,
        }
    }

    pub fn active_count(&self) -> (r: usize)
        ensures
            r == active(self.total as nat, self.completed as nat, self.parallel as nat),
    {
        let left: usize = if self.total > self.completed {
            self.total - self.completed
        } else {
            0
        };
        if left < self.parallel {
            left
        } else {
            self.parallel
        }
    }

    fn status_text(&self, elapsed: u64) -> (text: String)
        requires
            self.wf(),
        ensures
            text@ == status_line(*self, elapsed as nat),
    {
        let filled: usize = if self.total == 0 {
            24
        } else {
            let n: usize = (self.completed * 24 + self.total / 2) / self.total;
            if n > 24 {
                24
            } else {
                n
            }
        };
        let mut text = "[".to_owned();
        push_repeated(&mut text, '#', filled);
        push_repeated(&mut text, '-', 24 - filled);
        text.append("] ");
        push_number(&mut text, self.completed);
        text.append("/");
        push_number(&mut text, self.total);
        text.append(" | ok:");
        push_number(&mut text, self.success);
        text.append(" skip:");
        push_number(&mut text, self.skipped);
        text.append(" fail:");
        push_number(&mut text, self.failed);
        text.append(" | active:");
        push_number(&mut text, self.active_count());
        text.append(" | last:");
        match &self.last_subject {
            Some(subject) => text.append(subject.as_str()),
            None => text.append("-"),
        }
        text.append(" | elapsed:");
        let elapsed_digits = format_elapsed(elapsed);
        text.append(elapsed_digits.as_str());
        text
    }

    /// Gives what draws the status line, and notes its width.
    pub fn render(&mut self, elapsed: u64) -> (out: String)
        requires
            old(self).wf(),
        ensures
            final(self).redrawn_from(*old(self), elapsed as nat),
            out@ == drawn(
                status_line(*old(self), elapsed as nat),
                old(self).last_render_width as nat,
            ),
    {
        let line = self.status_text(elapsed);
        let width: usize = line.as_str().unicode_len();
        let mut out = "\r".to_owned();
        out.append(line.as_str());
        let padding: usize = if self.last_render_width > width {
            self.last_render_width - width
        } else {
            0
        };
        push_repeated(&mut out, ' ', padding);
        self.last_render_width = width;
        out
    }

    /// Gives what prints `message` above the status line.
    pub fn note(&mut self, message: &str, elapsed: u64) -> (out: String)
        requires
            old(self).wf(),
        ensures
            final(self).redrawn_from(*old(self), elapsed as nat),
            out@ == noted(*old(self), message@, elapsed as nat),
    {
        let mut out = String::new();
        if self.last_render_width > 0 {
            out.append("\r");
            push_repeated(&mut out, ' ', self.last_render_width);
            out.append("\r");
        }
        assert(out@ =~= cleared(old(self).last_render_width as nat));
        out.append(message);
        out.append("\n");
        self.last_render_width = 0;
        let line = self.render(elapsed);
        out.append(line.as_str());
        assert(status_line(*self, elapsed as nat) == status_line(*old(self), elapsed as nat));
        out
    }

    /// Counts components that were done before.
    pub fn seed_skipped(&mut self, count: usize, reason: &str, elapsed: u64) -> (out: String)
        requires
            old(self).wf(),
            old(self).completed + count <= usize::MAX,
            old(self).skipped + count <= usize::MAX,
        ensures
            final(self).wf(),
            old(self).is_balanced() && old(self).completed + count <= old(self).total ==>
                final(self).is_balanced(),
            count == 0 ==> *final(self) == *old(self) && out@ == Seq::<char>::empty(),
            count > 0 ==> ({
                let counted = old(self).after_seeding(count as nat);
                &&& final(self).redrawn_from(counted, elapsed as nat)
                &&& out@ == noted(
                    counted,
                    "Pre-skipped "@ + decimal(count as nat) + " item(s) from "@ + reason@,
                    elapsed as nat,
                )
            }),
    {
        if count == 0 {
            return String::new();
        }
        self.completed = if self.completed + count < self.total {
            self.completed + count
        } else {
            self.total
        };
        self.skipped = self.skipped + count;
        let mut message = "Pre-skipped ".to_owned();
        push_number(&mut message, count);
        message.append(" item(s) from ");
        message.append(reason);
        self.note(message.as_str(), elapsed)
    }

    /// Counts a component that was exported.
    pub fn record_success(&mut self, id: &str, detail: Option<&str>, elapsed: u64) -> (out: String)
        requires
            old(self).wf(),
            old(self).success < usize::MAX,
        ensures
            final(self).wf(),
            old(self).is_balanced() && old(self).completed < old(self).total ==>
                final(self).is_balanced(),
            optional(final(self).last_subject) == Some(subject(id@, detail_view(detail))),
            ({
                let counted = old(self).after_success(final(self).last_subject);
                &&& final(self).redrawn_from(counted, elapsed as nat)
                &&& out@ == drawn(
                    status_line(counted, elapsed as nat),
                    old(self).last_render_width as nat,
                )
            }),
    {
        if self.completed < self.total {
            self.completed = self.completed + 1;
        }
        self.success = self.success + 1;
        self.last_subject = Some(format_subject(id, detail));
        self.render(elapsed)
    }

    /// Counts a component that was left out.
    pub fn record_skip(&mut self, id: &str, reason: &str, elapsed: u64) -> (out: String)
        requires
            old(self).wf(),
            old(self).skipped < usize::MAX,
        ensures
            final(self).wf(),
            old(self).is_balanced() && old(self).completed < old(self).total ==>
                final(self).is_balanced(),
            optional(final(self).last_subject) == Some(subject(id@, None)),
            ({
                let counted = old(self).after_skip(final(self).last_subject);
                &&& final(self).redrawn_from(counted, elapsed as nat)
                &&& out@ == noted(counted, "SKIP "@ + id@ + ": "@ + reason@, elapsed as nat)
            }),
    {
        if self.completed < self.total {
            self.completed = self.completed + 1;
        }
        self.skipped = self.skipped + 1;
        self.last_subject = Some(format_subject(id, None));
        let mut message = "SKIP ".to_owned();
        message.append(id);
        message.append(": ");
        message.append(reason);
        self.note(message.as_str(), elapsed)
    }

    /// Counts a component that failed.
    pub fn record_failure(&mut self, id: &str, error: &str, elapsed: u64) -> (out: String)
        requires
            old(self).wf(),
            old(self).failed < usize::MAX,
        ensures
            final(self).wf(),
            old(self).is_balanced() && old(self).completed < old(self).total ==>
                final(self).is_balanced(),
            optional(final(self).last_subject) == Some(subject(id@, None)),
            ({
                let counted = old(self).after_failure(final(self).last_subject);
                &&& final(self).redrawn_from(counted, elapsed as nat)
                &&& out@ == noted(counted, "FAILED "@ + id@ + ": "@ + error@, elapsed as nat)
            }),
    {
        if self.completed < self.total {
            self.completed = self.completed + 1;
        }
        self.failed = self.failed + 1;
        self.last_subject = Some(format_subject(id, None));
        let mut message = "FAILED ".to_owned();
        message.append(id);
        message.append(": ");
        message.append(error);
        self.note(message.as_str(), elapsed)
    }

    /// Gives what ends the status line.
    pub fn finish(&mut self) -> (out: String)
        ensures
            *final(self) == (BatchProgress { last_render_width: 0, ..*old(self) }),
            out@ == if old(self).last_render_width > 0 {
                "\n"@
            } else {
                Seq::<char>::empty()
            },
    {
        if self.last_render_width > 0 {
            self.last_render_width = 0;
            "\n".to_owned()
        } else {
            String::new()
        }
    }
}

// Names in merged libraries

/// The names that are tried for a component after its own: with the part
/// number, and with a number behind that from 2 on.
pub open spec fn numbered_name(base: Seq<char>, id: Seq<char>, index: nat) -> Seq<char> {
    if index < 2 {
        base + "_"@ + id
    } else {
        base + "_"@ + id + "_"@ + decimal(index)
    }
}

/// Whether `index` is the first number, 1 standing for none, whose name is free.
pub open spec fn is_first_free_name(
    base: Seq<char>,
    id: Seq<char>,
    used: Seq<Seq<char>>,
    index: nat,
) -> bool {
    &&& index >= 1
    &&& !used.contains(lower_text(numbered_name(base, id, index)))
    &&& forall|i: nat|
        1 <= i < index ==> used.contains(lower_text(#[trigger] numbered_name(base, id, i)))
}

/// The name for a component where the names `used`, in small letters, are taken.
pub open spec fn merged_name(base: Seq<char>, id: Seq<char>, used: Seq<Seq<char>>) -> Seq<char> {
    if used.contains(lower_text(base)) {
        numbered_name(base, id, choose|index: nat| is_first_free_name(base, id, used, index))
    } else {
        base
    }
}

proof fn lemma_numbered_names_differ(base: Seq<char>, id: Seq<char>, m: nat, n: nat)
    requires
        1 <= m < n,
    ensures
        lower_text(numbered_name(base, id, m)) != lower_text(numbered_name(base, id, n)),
{
    let start = base + "_"@ + id;
    let a = numbered_name(base, id, m);
    let b = numbered_name(base, id, n);
    reveal_strlit("_");
    lemma_decimal(n);
    lemma_decimal(m);
    if lower_text(a) == lower_text(b) {
        assert(lower_text(a).len() == a.len() && lower_text(b).len() == b.len());
        let k = start.len() + 1;
        assert(m >= 2);
        assert forall|i: int| 0 <= i < decimal(m).len() implies decimal(m)[i] == decimal(n)[i] by {
            assert(lower_text(a)[k + i] == lower_text(b)[k + i]);
            assert(a[k + i] == decimal(m)[i] && b[k + i] == decimal(n)[i]);
            assert(is_digit(decimal(m)[i]) && is_digit(decimal(n)[i]));
        }
        assert(decimal(m) =~= decimal(n));
        lemma_decimal_injective(m, n);
    }
}

proof fn lemma_name_tries_bounded(
    base: Seq<char>,
    id: Seq<char>,
    used: Seq<Seq<char>>,
    index: nat,
)
    requires
        index >= 1,
        forall|i: nat|
            1 <= i < index ==> used.contains(lower_text(#[trigger] numbered_name(base, id, i))),
    ensures
        index - 1 <= used.len(),
{
    let family = |i: nat| lower_text(numbered_name(base, id, i + 1));
    assert forall|i: nat, j: nat| i < j < index - 1 implies #[trigger] family(i)
        != #[trigger] family(j) by {
        lemma_numbered_names_differ(base, id, i + 1, j + 1);
    }
    lemma_family_used(family, (index - 1) as nat, used);
}

fn numbered_name_text(base: &str, id: &str, index: u128) -> (name: String)
    ensures
        name@ == numbered_name(base@, id@, index as nat),
{
    let mut name = base.to_owned();
    name.append("_");
    name.append(id);
    if index >= 2 {
        name.append("_");
        let digits = decimal_text(index);
        name.append(digits.as_str());
    }
    name
}

/// Finds a name that is not among `used_names`, and adds it there in small letters.
pub fn reserve_merged_name(base: &str, lcsc_id: &str, used_names: &mut Vec<String>) -> (name:
    String)
    ensures
        name@ == merged_name(base@, lcsc_id@, views(old(used_names)@)),
        views(final(used_names)@) == views(old(used_names)@).push(lower_text(name@)),
{
    let ghost before = views(used_names@);
    let small = lowercased(base);
    if !has_text(used_names, small.as_str()) {
        used_names.push(small);
        assert(views(used_names@) =~= before.push(lower_text(base@)));
        return base.to_owned();
    }
    let count: usize = used_names.len();
    let mut index: u128 = 1;
    loop
        invariant
            before.contains(lower_text(base@)),
            before == views(old(used_names)@),
            views(used_names@) == before,
            before.len() == count,
            1 <= index,
            index - 1 <= before.len(),
            forall|i: nat|
                1 <= i < index ==> before.contains(
                    lower_text(#[trigger] numbered_name(base@, lcsc_id@, i)),
                ),
        decreases before.len() + 1 - index,
    {
        let candidate = numbered_name_text(base, lcsc_id, index);
        let small = lowercased(candidate.as_str());
        if !has_text(used_names, small.as_str()) {
            proof {
                assert(is_first_free_name(base@, lcsc_id@, before, index as nat));
                let chosen = choose|index: nat|
                    is_first_free_name(base@, lcsc_id@, before, index);
                if chosen < index {
                    assert(before.contains(
                        lower_text(numbered_name(base@, lcsc_id@, chosen)),
                    ));
                } else if index < chosen {
                    assert(before.contains(
                        lower_text(numbered_name(base@, lcsc_id@, index as nat)),
                    ));
                }
            }
            used_names.push(small);
            assert(views(used_names@) =~= before.push(lower_text(candidate@)));
            return candidate;
        }
        proof {
            lemma_name_tries_bounded(base@, lcsc_id@, before, (index + 1) as nat);
        }
        index += 1;
    }
}

pub proof fn lemma_first_free_name_exists(
    base: Seq<char>,
    id: Seq<char>,
    used: Seq<Seq<char>>,
    index: nat,
) -> (free: nat)
    requires
        index >= 1,
        forall|i: nat|
            1 <= i < index ==> used.contains(lower_text(#[trigger] numbered_name(base, id, i))),
    ensures
        is_first_free_name(base, id, used, free),
    decreases used.len() + 2 - index,
{
    lemma_name_tries_bounded(base, id, used, index);
    if used.contains(lower_text(numbered_name(base, id, index))) {
        lemma_name_tries_bounded(base, id, used, index + 1);
        lemma_first_free_name_exists(base, id, used, index + 1)
    } else {
        index
    }
}

/// A name that is given out differs from all that were taken in more than case,
/// and starts with the name that was asked for.
pub proof fn law_merged_names_fresh(base: Seq<char>, id: Seq<char>, used: Seq<Seq<char>>)
    ensures
        !used.contains(lower_text(merged_name(base, id, used))),
        base.is_prefix_of(merged_name(base, id, used)),
{
    if used.contains(lower_text(base)) {
        let free = lemma_first_free_name_exists(base, id, used, 1);
        let chosen = choose|index: nat| is_first_free_name(base, id, used, index);
        assert(is_first_free_name(base, id, used, chosen));
        let name = numbered_name(base, id, chosen);
        assert(name.subrange(0, base.len() as int) =~= base);
    }
}

/// The name that a component asks for: its own, or its part number where that is blank.
pub open spec fn wanted_name(display_name: Seq<char>, id: Seq<char>) -> Seq<char> {
    if trim(display_name).len() > 0 {
        trim(display_name)
    } else {
        id
    }
}

pub fn merged_symbol_component_name(
    display_name: &str,
    lcsc_id: &str,
    used_names: &mut Vec<String>,
) -> (name: String)
    ensures
        name@ == merged_name(
            wanted_name(display_name@, lcsc_id@),
            lcsc_id@,
            views(old(used_names)@),
        ),
        views(final(used_names)@) == views(old(used_names)@).push(lower_text(name@)),
{
    let bare = trimmed(display_name);
    if bare.as_str().is_empty() {
        reserve_merged_name(lcsc_id, lcsc_id, used_names)
    } else {
        reserve_merged_name(bare.as_str(), lcsc_id, used_names)
    }
}

/// Names the footprint of a component: after its own footprint, or after the
/// component where it has none.
pub fn merged_footprint_name(
    footprint: Option<&str>,
    display_name: &str,
    lcsc_id: &str,
    used_names: &mut Vec<String>,
) -> (name: String)
    ensures
        name@ == merged_name(
            match detail_view(footprint) {
                Some(base) => base,
                None => wanted_name(display_name@, lcsc_id@),
            },
            lcsc_id@,
            views(old(used_names)@),
        ),
        views(final(used_names)@) == views(old(used_names)@).push(lower_text(name@)),
{
    match footprint {
        Some(base) => reserve_merged_name(base, lcsc_id, used_names),
        None => merged_symbol_component_name(display_name, lcsc_id, used_names),
    }
}

/// The part number under which a component is known: that of the item found
/// for it, where it has a valid one, or the one that was asked for.
pub open spec fn known_as(item_id: Option<Seq<char>>, id: Seq<char>) -> Seq<char> {
    match item_id {
        Some(value) => match lcsc_id(value) {
            Some(number) => number,
            None => id,
        },
        None => id,
    }
}

pub fn merged_identity(item_id: Option<&str>, id: &str) -> (r: String)
    ensures
        r@ == known_as(detail_view(item_id), id@),
{
    match item_id {
        Some(value) => match normalize_lcsc_id(value) {
            Some(number) => number,
            None => id.to_owned(),
        },
        None => id.to_owned(),
    }
}

/// The name of a merged library: the one that was asked for, or else the stem
/// of the input file, unless they are blank.
pub open spec fn library_name(name: Option<Seq<char>>, stem: Option<Seq<char>>) -> Seq<char> {
    match name {
        Some(name) => if trim(name).len() > 0 {
            trim(name)
        } else {
            stem_name(stem)
        },
        None => stem_name(stem),
    }
}

pub open spec fn stem_name(stem: Option<Seq<char>>) -> Seq<char> {
    match stem {
        Some(stem) => if trim(stem).len() > 0 {
            trim(stem)
        } else {
            "MergedLib"@
        },
        None => "MergedLib"@,
    }
}

pub fn library_name_for(name: Option<&str>, stem: Option<&str>) -> (r: String)
    ensures
        r@ == library_name(detail_view(name), detail_view(stem)),
{
    if let Some(name) = name {
        let bare = trimmed(name);
        if !bare.as_str().is_empty() {
            return bare;
        }
    }
    if let Some(stem) = stem {
        let bare = trimmed(stem);
        if !bare.as_str().is_empty() {
            return bare;
        }
    }
    "MergedLib".to_owned()
}

/// `Path::file_stem` and `OsStr::to_str`: the stem of the file that a path
/// names, where it has one and it is text. What separates the parts of a path
/// is up to the machine, so nothing is claimed of the stem.
#[verifier::external_body]
pub(crate) fn path_stem(path: &PathBuf) -> (r: Option<String>) {
    match path.file_stem() {
        Some(stem) => match stem.to_str() {
            Some(text) => Some(text.to_string()),
            None => None,
        },
        None => None,
    }
}

/// The name of the library that a batch merges into.
pub fn resolve_library_name(options: &BatchOptions) -> (r: String)
    ensures
        exists|stem: Option<Seq<char>>|
            r@ == #[trigger] library_name(optional(options.library_name), stem),
{
    let stem = path_stem(&options.input);
    let stem_text = match &stem {
        Some(stem) => Some(stem.as_str()),
        None => None,
    };
    let name = match &options.library_name {
        Some(name) => Some(name.as_str()),
        None => None,
    };
    let r = library_name_for(name, stem_text);
    assert(r@ == library_name(optional(options.library_name), detail_view(stem_text)));
    r
}

} // verus!
