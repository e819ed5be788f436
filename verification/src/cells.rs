//! The rows that a footprint is drawn with, and the paths and circles in them.

use vstd::prelude::*;
use crate::reals::{zero, Real, MILLIONTH_BITS, ZERO_BITS};
use crate::error::{AppError, Failure};
use crate::schlib::optional;
use crate::text::{
    decimal, decimal_text, same_but_case, same_text, same_text_but_case, split, split_text, trim,
    trimmed, upper_text, uppercased,
};

verus! {

/// A number in a cell, and the whole number nearest to it.
#[derive(Debug, Clone, Copy, PartialEq, Eq, Structural)]
pub struct Numeral {
    pub value: Real,
    pub rounded: i32,
}

/// A value in a row.
#[derive(Debug)]
pub enum Cell {
    /// A string, with the number that it spells, if it spells one.
    Text { text: String, number: Option<Numeral> },
    /// A number, a truth value or nothing, with what it is as a text and as a number.
    Plain { text: Option<String>, number: Option<Numeral> },
    List(Vec<Cell>),
}

impl Cell {
    /// The number that a cell holds.
    pub open spec fn number(self) -> Option<Numeral> {
        match self {
            Cell::Text { text, number } => number,
            Cell::Plain { text, number } => number,
            Cell::List(items) => None,
        }
    }

    /// What a cell is as a text.
    pub open spec fn text(self) -> Option<Seq<char>> {
        match self {
            Cell::Text { text, number } => Some(text@),
            Cell::Plain { text, number } => optional(text),
            Cell::List(items) => None,
        }
    }
}

/// The number in place `i` of a row.
pub open spec fn number_in(row: Seq<Cell>, i: int) -> Option<Numeral> {
    if 0 <= i < row.len() {
        row[i].number()
    } else {
        None
    }
}

/// The text in place `i` of a row.
pub open spec fn text_in(row: Seq<Cell>, i: int) -> Option<Seq<char>> {
    if 0 <= i < row.len() {
        row[i].text()
    } else {
        None
    }
}

pub fn number_at(row: &Vec<Cell>, i: usize) -> (r: Option<Numeral>)
    ensures
        r == number_in(row@, i as int),
{
    if i >= row.len() {
        return None;
    }
    match &row[i] {
        Cell::Text { text: _, number } => *number,
        Cell::Plain { text: _, number } => *number,
        Cell::List(_) => None,
    }
}

pub fn text_at(row: &Vec<Cell>, i: usize) -> (r: Option<String>)
    ensures
        optional(r) == text_in(row@, i as int),
{
    if i >= row.len() {
        return None;
    }
    match &row[i] {
        Cell::Text { text, number: _ } => Some(text.clone()),
        Cell::Plain { text, number: _ } => match text {
            Some(text) => Some(text.clone()),
            None => None,
        },
        Cell::List(_) => None,
    }
}

/// The number in place `i` of a row, or `default`.
pub open spec fn real_in(row: Seq<Cell>, i: int, default: Real) -> Real {
    match number_in(row, i) {
        Some(number) => number.value,
        None => default,
    }
}

pub fn row_real(row: &Vec<Cell>, i: usize, default: Real) -> (r: Real)
    ensures
        r == real_in(row@, i as int, default),
{
    match number_at(row, i) {
        Some(number) => number.value,
        None => default,
    }
}

/// The whole number in place `i` of a row, or `default`.
pub open spec fn whole_in(row: Seq<Cell>, i: int, default: i32) -> i32 {
    match number_in(row, i) {
        Some(number) => number.rounded,
        None => default,
    }
}

pub fn row_i32(row: &Vec<Cell>, i: usize, default: i32) -> (r: i32)
    ensures
        r == whole_in(row@, i as int, default),
{
    match number_at(row, i) {
        Some(number) => number.rounded,
        None => default,
    }
}

/// The text in place `i` of a row, or `default`.
pub open spec fn text_or(row: Seq<Cell>, i: int, default: Seq<char>) -> Seq<char> {
    match text_in(row, i) {
        Some(text) => text,
        None => default,
    }
}

pub fn row_text_or(row: &Vec<Cell>, i: usize, default: &str) -> (r: String)
    ensures
        r@ == text_or(row@, i as int, default@),
{
    match text_at(row, i) {
        Some(text) => text,
        None => default.to_owned(),
    }
}

pub fn row_string(row: &Vec<Cell>, i: usize) -> (r: String)
    ensures
        r@ == text_or(row@, i as int, ""@),
{
    row_text_or(row, i, "")
}

// Rows out of text

/// The lines of a drawing that are not blank, trimmed, each with its number,
/// among the first `n` of `lines`.
pub open spec fn numbered_lines(lines: Seq<Seq<char>>, n: int) -> Seq<(nat, Seq<char>)>
    decreases n,
{
    if n <= 0 {
        Seq::empty()
    } else {
        let before = numbered_lines(lines, n - 1);
        if trim(lines[n - 1]).len() > 0 {
            before.push((n as nat, trim(lines[n - 1])))
        } else {
            before
        }
    }
}

/// The views of numbered lines.
pub open spec fn line_views(lines: Seq<(usize, String)>) -> Seq<(nat, Seq<char>)> {
    lines.map_values(|line: (usize, String)| (line.0 as nat, line.1@))
}

/// The lines of a drawing that hold a row each.
pub fn data_lines(data: &str) -> (r: Vec<(usize, String)>)
    ensures
        line_views(r@) == numbered_lines(
            split(data@, '\n'),
            split(data@, '\n').len() as int,
        ),
{
    let lines = split_text(data, '\n');
    let ghost all = split(data@, '\n');
    assert(lines@.len() == all.len()) by {
        assert(crate::text::views(lines@).len() == lines@.len());
    }
    let mut kept: Vec<(usize, String)> = Vec::new();
    let mut i: usize = 0;
    assert(line_views(kept@) =~= numbered_lines(all, 0));
    while i < lines.len()
        invariant
            i <= lines@.len(),
            lines@.len() == all.len(),
            crate::text::views(lines@) == all,
            line_views(kept@) == numbered_lines(all, i as int),
        decreases lines.len() - i,
    {
        assert(all[i as int] == lines@[i as int]@);
        let line = trimmed(lines[i].as_str());
        if !line.as_str().is_empty() {
            let ghost before = line_views(kept@);
            kept.push((i + 1, line));
            assert(line_views(kept@) =~= before.push(((i + 1) as nat, line@)));
        }
        i += 1;
    }
    kept
}

/// A line that was parsed: its number, and the value in it or what is wrong with it.
pub type ParsedLine = (usize, Result<Cell, String>);

/// What is said of a row that cannot be parsed.
pub open spec fn row_error(number: nat, error: Seq<char>) -> Seq<char> {
    "invalid EasyEDA dataStr row "@ + decimal(number) + ": "@ + error
}

/// The rows among values: those that are lists.
pub open spec fn list_rows(lines: Seq<ParsedLine>) -> Seq<Seq<Cell>>
    decreases lines.len(),
{
    if lines.len() == 0 {
        Seq::empty()
    } else {
        let before = list_rows(lines.drop_last());
        match lines.last().1 {
            Ok(Cell::List(items)) => before.push(items@),
            _ => before,
        }
    }
}

pub open spec fn row_views(rows: Seq<Vec<Cell>>) -> Seq<Seq<Cell>> {
    rows.map_values(|row: Vec<Cell>| row@)
}

/// Whether `n` is the first line that could not be parsed.
pub open spec fn fails_first(lines: Seq<ParsedLine>, n: int) -> bool {
    &&& 0 <= n < lines.len()
    &&& lines[n].1 is Err
    &&& forall|i: int| 0 <= i < n ==> (#[trigger] lines[i]).1 is Ok
}

/// The rows of a drawing, out of its parsed lines.
pub fn collect_rows(lines: Vec<ParsedLine>) -> (r: Result<Vec<Vec<Cell>>, AppError>)
    ensures
        match r {
            Ok(rows) => {
                &&& forall|i: int| 0 <= i < lines@.len() ==> (#[trigger] lines@[i]).1 is Ok
                &&& row_views(rows@) == list_rows(lines@)
            },
            Err(e) => exists|n: int| #[trigger]
                fails_first(lines@, n) && e.failure() == Failure::InvalidResponse(
                    row_error(lines@[n].0 as nat, lines@[n].1->Err_0@),
                ),
        },
{
    let ghost all = lines@;
    let count: usize = lines.len();
    let mut rest = lines;
    let mut rows: Vec<Vec<Cell>> = Vec::new();
    let mut i: usize = 0;
    assert(all.take(0) =~= Seq::<ParsedLine>::empty());
    assert(row_views(rows@) =~= Seq::<Seq<Cell>>::empty());
    while i < count
        invariant
            i <= count,
            count == all.len(),
            all == lines@,
            rest@ == all.skip(i as int),
            forall|k: int| 0 <= k < i ==> (#[trigger] all[k]).1 is Ok,
            row_views(rows@) == list_rows(all.take(i as int)),
        decreases count - i,
    {
        assert(all.take(i + 1).drop_last() =~= all.take(i as int));
        assert(all.take(i + 1).last() == all[i as int]);
        let (number, parsed) = rest.remove(0);
        assert(rest@ =~= all.skip(i + 1));
        match parsed {
            Ok(cell) => {
                if let Cell::List(items) = cell {
                    let ghost before = row_views(rows@);
                    rows.push(items);
                    assert(row_views(rows@) =~= before.push(items@));
                }
            },
            Err(error) => {
                let mut message = "invalid EasyEDA dataStr row ".to_owned();
                message.append(decimal_text(number as u128).as_str());
                message.append(": ");
                message.append(error.as_str());
                assert(fails_first(all, i as int));
                return Err(AppError::InvalidResponse(message));
            },
        }
        i += 1;
    }
    assert(all.take(i as int) =~= all);
    Ok(rows)
}

/// The text that a drawing is in.
pub fn choose_data(inner: Option<String>, outer: Option<String>) -> (r: Result<String, AppError>)
    ensures
        match r {
            Ok(text) => match optional(inner) {
                Some(inner) => text@ == inner,
                None => optional(outer) == Some(text@),
            },
            Err(e) => inner is None && outer is None && e.failure() == Failure::InvalidResponse(
                "footprint payload has no dataStr"@,
            ),
        },
{
    match inner {
        Some(text) => Ok(text),
        None => match outer {
            Some(text) => Ok(text),
            None => Err(crate::error::invalid_response("footprint payload has no dataStr")),
        },
    }
}

// Circles

#[derive(Debug, Clone, Copy, PartialEq, Eq, Structural)]
pub struct Circle {
    pub cx: Real,
    pub cy: Real,
    pub radius: Real,
}

/// The items of a cell that is a list.
pub open spec fn items_of(cell: Cell) -> Option<Seq<Cell>> {
    match cell {
        Cell::List(items) => Some(items@),
        _ => None,
    }
}

/// Whether a radius is large enough for a circle.
pub open spec fn is_radius(radius: Real) -> bool {
    (Real { bits: MILLIONTH_BITS }).lt(radius)
}

pub fn fits_radius(radius: Real) -> (r: bool)
    ensures
        r == is_radius(radius),
{
    Real::new(MILLIONTH_BITS).is_less(radius)
}

/// The circle that a list says: the word `CIRCLE`, the center and the radius.
pub open spec fn listed_circle(items: Seq<Cell>) -> Option<Circle> {
    if items.len() >= 4 && same_but_case(text_or(items, 0, ""@), "CIRCLE"@) {
        match number_in(items, 3) {
            Some(number) => if is_radius(number.value.spec_abs()) {
                Some(
                    Circle {
                        cx: real_in(items, 1, zero()),
                        cy: real_in(items, 2, zero()),
                        radius: number.value.spec_abs(),
                    },
                )
            } else {
                None
            },
            None => None,
        }
    } else {
        None
    }
}

pub open spec fn circle_of(shape: Cell) -> Option<Circle> {
    match items_of(shape) {
        Some(items) => listed_circle(items),
        None => None,
    }
}

pub fn try_parse_circle_shape(shape: &Cell) -> (r: Option<Circle>)
    ensures
        r == circle_of(*shape),
{
    match shape {
        Cell::List(items) => {
            if items.len() < 4 {
                return None;
            }
            let word = row_string(items, 0);
            if !same_text_but_case(word.as_str(), "CIRCLE") {
                return None;
            }
            match number_at(items, 3) {
                Some(number) => {
                    let radius = number.value.abs();
                    if fits_radius(radius) {
                        Some(
                            Circle {
                                cx: row_real(items, 1, Real::new(ZERO_BITS)),
                                cy: row_real(items, 2, Real::new(ZERO_BITS)),
                                radius,
                            },
                        )
                    } else {
                        None
                    }
                },
                None => None,
            }
        },
        _ => None,
    }
}

// Paths

/// A step of a path.
#[derive(Debug, Clone, Copy, PartialEq, Eq, Structural)]
pub enum PathStep {
    /// On to a point.
    Point { x: Real, y: Real },
    /// Around a rectangle, its corners rounded.
    Rect { x: Real, y: Real, width: Real, height: Real, radius: Real },
    /// Along an arc to a point.
    Arc { sweep: Real, x: Real, y: Real },
}

/// The point whose coordinates are in places `i` and `i + 1`.
pub open spec fn point_in(cells: Seq<Cell>, i: int) -> Option<PathStep> {
    match (number_in(cells, i), number_in(cells, i + 1)) {
        (Some(x), Some(y)) => Some(PathStep::Point { x: x.value, y: y.value }),
        _ => None,
    }
}

/// The rectangle whose corner, sides and radius are in the places from `i` on. The
/// radius may be missing.
pub open spec fn rect_in(cells: Seq<Cell>, i: int) -> Option<PathStep> {
    match (
        number_in(cells, i),
        number_in(cells, i + 1),
        number_in(cells, i + 2),
        number_in(cells, i + 3),
    ) {
        (Some(x), Some(y), Some(width), Some(height)) => Some(
            PathStep::Rect {
                x: x.value,
                y: y.value,
                width: width.value,
                height: height.value,
                radius: real_in(cells, i + 4, zero()),
            },
        ),
        _ => None,
    }
}

/// The arc whose sweep and end are in the places from `i` on.
pub open spec fn arc_in(cells: Seq<Cell>, i: int) -> Option<PathStep> {
    match (number_in(cells, i), number_in(cells, i + 1), number_in(cells, i + 2)) {
        (Some(sweep), Some(x), Some(y)) => Some(
            PathStep::Arc { sweep: sweep.value, x: x.value, y: y.value },
        ),
        _ => None,
    }
}

/// The points that follow each other from place `i` on.
pub open spec fn points_from(cells: Seq<Cell>, i: int) -> Seq<PathStep>
    decreases cells.len() - i,
{
    match point_in(cells, i) {
        Some(point) => if i < cells.len() {
            seq![point] + points_from(cells, i + 2)
        } else {
            Seq::empty()
        },
        None => Seq::empty(),
    }
}

/// The step that a command takes, with how many places it takes up behind it.
pub open spec fn command_step(command: Seq<char>, cells: Seq<Cell>, i: int) -> Option<
    (PathStep, nat),
> {
    if command == "R"@ {
        match rect_in(cells, i) {
            Some(step) => Some((step, 5)),
            None => None,
        }
    } else if command == "ARC"@ || command == "A"@ {
        match arc_in(cells, i) {
            Some(step) => Some((step, 3)),
            None => None,
        }
    } else {
        None
    }
}

/// The command in a cell that is a string.
pub open spec fn command_in(cell: Cell) -> Option<Seq<char>> {
    match cell {
        Cell::Text { text, number } => Some(upper_text(trim(text@))),
        _ => None,
    }
}

/// The steps of the path that is in the places from `i` on.
pub open spec fn steps_from(cells: Seq<Cell>, i: int) -> Seq<PathStep>
    decreases
        (if i < cells.len() {
            cells.len() - i
        } else {
            0
        }),
{
    if i < 0 || i >= cells.len() {
        Seq::empty()
    } else {
        match command_in(cells[i]) {
            Some(command) => if command == "L"@ {
                let points = points_from(cells, i + 1);
                points + steps_from(cells, i + 1 + 2 * points.len())
            } else {
                match command_step(command, cells, i + 1) {
                    Some((step, places)) => seq![step] + steps_from(
                        cells,
                        i + 1 + places,
                    ),
                    None => steps_from(cells, i + 1),
                }
            },
            None => match point_in(cells, i) {
                Some(point) => seq![point] + steps_from(cells, i + 2),
                None => steps_from(cells, i + 1),
            },
        }
    }
}

/// The path that a list says. A circle is none.
pub open spec fn path_of(shape: Cell) -> Seq<PathStep> {
    match items_of(shape) {
        Some(items) => if same_but_case(text_or(items, 0, ""@), "CIRCLE"@) {
            Seq::empty()
        } else {
            steps_from(items, 0)
        },
        None => Seq::empty(),
    }
}

fn point_at(cells: &Vec<Cell>, i: usize) -> (r: Option<PathStep>)
    requires
        i < cells@.len(),
    ensures
        r == point_in(cells@, i as int),
        r is Some ==> i + 1 < cells@.len(),
{
    if cells.len() - i < 2 {
        return None;
    }
    match (number_at(cells, i), number_at(cells, i + 1)) {
        (Some(x), Some(y)) => Some(PathStep::Point { x: x.value, y: y.value }),
        _ => None,
    }
}

fn rect_at(cells: &Vec<Cell>, i: usize) -> (r: Option<PathStep>)
    requires
        i <= cells@.len(),
    ensures
        r == rect_in(cells@, i as int),
        r is Some ==> i + 4 <= cells@.len(),
{
    if cells.len() - i < 4 {
        return None;
    }
    let radius = if cells.len() - i > 4 {
        row_real(cells, i + 4, Real::new(ZERO_BITS))
    } else {
        Real::new(ZERO_BITS)
    };
    match (
        number_at(cells, i),
        number_at(cells, i + 1),
        number_at(cells, i + 2),
        number_at(cells, i + 3),
    ) {
        (Some(x), Some(y), Some(width), Some(height)) => Some(
            PathStep::Rect {
                x: x.value,
                y: y.value,
                width: width.value,
                height: height.value,
                radius,
            },
        ),
        _ => None,
    }
}

fn arc_at(cells: &Vec<Cell>, i: usize) -> (r: Option<PathStep>)
    requires
        i <= cells@.len(),
    ensures
        r == arc_in(cells@, i as int),
        r is Some ==> i + 3 <= cells@.len(),
{
    if cells.len() - i < 3 {
        return None;
    }
    match (number_at(cells, i), number_at(cells, i + 1), number_at(cells, i + 2)) {
        (Some(sweep), Some(x), Some(y)) => Some(
            PathStep::Arc { sweep: sweep.value, x: x.value, y: y.value },
        ),
        _ => None,
    }
}

proof fn lemma_points_fit(cells: Seq<Cell>, i: int)
    requires
        0 <= i <= cells.len(),
    ensures
        i + 2 * points_from(cells, i).len() <= cells.len(),
    decreases cells.len() - i,
{
    if point_in(cells, i) is Some {
        assert(i + 2 <= cells.len());
        lemma_points_fit(cells, i + 2);
    }
}

/// Takes the steps along the points from place `i` on, and gives the place behind them.
fn push_points(steps: &mut Vec<PathStep>, cells: &Vec<Cell>, i: usize) -> (end: usize)
    requires
        i <= cells@.len(),
    ensures
        final(steps)@ == old(steps)@ + points_from(cells@, i as int),
        end == i + 2 * points_from(cells@, i as int).len(),
        end <= cells@.len(),
{
    let ghost all = old(steps)@ + points_from(cells@, i as int);
    let mut at: usize = i;
    proof {
        lemma_points_fit(cells@, i as int);
    }
    while at < cells.len()
        invariant
            i <= at <= cells@.len(),
            all == old(steps)@ + points_from(cells@, i as int),
            steps@ + points_from(cells@, at as int) == all,
            at + 2 * points_from(cells@, at as int).len() == i + 2 * points_from(
                cells@,
                i as int,
            ).len(),
        decreases cells.len() - at,
    {
        match point_at(cells, at) {
            Some(point) => {
                let ghost before = steps@;
                proof {
                    assert(points_from(cells@, at as int) == seq![point] + points_from(
                        cells@,
                        at + 2,
                    ));
                }
                steps.push(point);
                at += 2;
                assert(steps@ + points_from(cells@, at as int) =~= all);
            },
            None => {
                assert(steps@ =~= all);
                return at;
            },
        }
    }
    assert(points_from(cells@, at as int) =~= Seq::<PathStep>::empty());
    assert(steps@ =~= all);
    at
}

/// Reads the path that a list says, as steps.
pub fn parse_path_steps(shape: &Cell) -> (r: Vec<PathStep>)
    ensures
        r@ == path_of(*shape),
{
    let mut steps: Vec<PathStep> = Vec::new();
    let cells = match shape {
        Cell::List(items) => items,
        _ => {
            assert(steps@ =~= path_of(*shape));
            return steps;
        },
    };
    let word = row_string(cells, 0);
    if same_text_but_case(word.as_str(), "CIRCLE") {
        assert(steps@ =~= path_of(*shape));
        return steps;
    }
    let ghost all = steps_from(cells@, 0);
    let mut i: usize = 0;
    assert(steps@ + steps_from(cells@, 0) =~= all);
    while i < cells.len()
        invariant
            i <= cells@.len(),
            steps@ + steps_from(cells@, i as int) == all,
        decreases cells.len() - i,
    {
        let ghost before = steps@;
        let ghost start = i as int;
        match &cells[i] {
            Cell::Text { text, number: _ } => {
                let bare = trimmed(text.as_str());
                let command = uppercased(bare.as_str());
                i += 1;
                if same_text(command.as_str(), "L") {
                    i = push_points(&mut steps, cells, i);
                    assert(steps@ + steps_from(cells@, i as int) =~= before + steps_from(
                        cells@,
                        start,
                    ));
                } else if same_text(command.as_str(), "R") {
                    if let Some(step) = rect_at(cells, i) {
                        steps.push(step);
                        let ghost next = i + 5;
                        i = if cells.len() - i >= 5 {
                            i + 5
                        } else {
                            cells.len()
                        };
                        assert(steps_from(cells@, next) == steps_from(cells@, i as int));
                    }
                    assert(steps@ + steps_from(cells@, i as int) =~= before + steps_from(
                        cells@,
                        start,
                    )) by {
                        reveal_strlit("R");
                        reveal_strlit("L");
                        assert("R"@[0] != "L"@[0]);
                    }
                } else if same_text(command.as_str(), "ARC") || same_text(command.as_str(), "A") {
                    if let Some(step) = arc_at(cells, i) {
                        steps.push(step);
                        i += 3;
                    }
                    assert(steps@ + steps_from(cells@, i as int) =~= before + steps_from(
                        cells@,
                        start,
                    ));
                } else {
                    assert(steps_from(cells@, i as int) == steps_from(cells@, start));
                }
            },
            _ => match point_at(cells, i) {
                Some(point) => {
                    steps.push(point);
                    i += 2;
                    assert(steps@ + steps_from(cells@, i as int) =~= before + steps_from(
                        cells@,
                        start,
                    ));
                },
                None => {
                    i += 1;
                },
            },
        }
    }
    assert(steps@ =~= all);
    steps
}

} // verus!
