//! What the rows of a drawing say, whatever is in them.

use vstd::prelude::*;
use crate::cells::{
    circle_of, fails_first, items_of, list_rows, listed_circle, numbered_lines, path_of, points_from,
    row_error, steps_from, Cell, Numeral, ParsedLine, PathStep,
};
use crate::footprint::{
    drafts_in, figure_of, fill_shapes, graphic_layer, hole_type, is_pad_row, mask_layers,
    pad_in, pad_layer, pad_shape, role_on, row_kind, shape_drafts, sketched_drafts,
    sketched_pads, DraftModel, FigureModel, Role,
};
use crate::reals::{zero, Real};
use crate::text::{decimal, has_part, same_but_case, trim, upper_text};
use crate::text_laws::law_same_but_case;

verus! {

// Layers and shapes

/// Lines and areas go to the layer that their code stands for. Copper, overlay,
/// solder mask and paste have a top and a bottom layer each, and a code that stands
/// for none of these goes to the top overlay.
pub proof fn law_graphic_layers(code: i32)
    ensures
        graphic_layer(1) == 1 && graphic_layer(2) == 32,
        graphic_layer(3) == 33 && graphic_layer(4) == 34,
        graphic_layer(5) == 37 && graphic_layer(6) == 38,
        graphic_layer(7) == 35 && graphic_layer(8) == 36,
        graphic_layer(11) == 57 && graphic_layer(48) == 57,
        graphic_layer(12) == 74,
        graphic_layer(13) == 58,
        graphic_layer(50) == 61 && graphic_layer(51) == 62,
        code <= 0 || 9 <= code <= 10 || 14 <= code <= 47 || code == 49 || code >= 52
            ==> graphic_layer(code) == 33,
{
}

/// A pad goes through all layers exactly where it has a hole or is for all of them,
/// and is else on the bottom exactly where it is for that. Its mask is open on the
/// bottom alone, on both sides, or on the top alone.
pub proof fn law_pad_layers(code: i32, has_hole: bool)
    ensures
        pad_layer(code, has_hole) == 74 <==> has_hole || code == 12,
        pad_layer(code, has_hole) == 32 <==> !has_hole && code == 2,
        pad_layer(code, has_hole) == 1 <==> !has_hole && code != 2 && code != 12,
        mask_layers(code, has_hole).contains((32u8, "BOTTOM"@)) <==> code == 2 || code == 12
            || has_hole,
        mask_layers(code, has_hole).contains((1u8, "TOP"@)) <==> code != 2,
        mask_layers(code, has_hole).len() == if code != 2 && (code == 12 || has_hole) {
            2int
        } else {
            1int
        },
{
    let layers = mask_layers(code, has_hole);
    reveal_strlit("TOP");
    reveal_strlit("BOTTOM");
    assert("TOP"@.len() == 3 && "BOTTOM"@.len() == 6);
    if layers.len() == 1 {
        assert(layers.contains(layers[0]));
    } else {
        assert(layers[0] == (1u8, "TOP"@) && layers[1] == (32u8, "BOTTOM"@));
        assert(layers.contains(layers[0]) && layers.contains(layers[1]));
    }
}

/// Figures on the two layers of the body say how far it reaches. Those on the five
/// layers that are drawn are drawn, and those on any other are left out.
pub proof fn law_roles(code: i32, drawn: Role)
    ensures
        code == 48 || code == 99 ==> role_on(code, drawn) == Some(Role::Body),
        code == 3 || code == 4 || code == 12 || code == 13 || code == 49 ==> role_on(code, drawn)
            == Some(drawn),
        code != 48 && code != 99 && code != 3 && code != 4 && code != 12 && code != 13 && code != 49
            ==> role_on(code, drawn) is None,
{
}

/// A hole is a slot where its name speaks of one, in whatever case, else square
/// where it speaks of a square or a rectangle, and else round.
pub proof fn law_hole_types(name: Seq<char>)
    ensures
        ({
            let said = upper_text(trim(name));
            &&& hole_type(name) == 2 <==> has_part(said, "SLOT"@)
            &&& hole_type(name) == 1 <==> !has_part(said, "SLOT"@) && (has_part(said, "SQUARE"@)
                || has_part(said, "RECT"@))
            &&& hole_type(name) <= 2
        }),
{
}

/// A pad has the shape that its name speaks of: a rectangle with round corners, a
/// polygon or an octagon. An oval, and any other with sides of different length, is
/// a rectangle with round corners too, and all others are round.
pub proof fn law_pad_shapes(name: Seq<char>, equal_sides: bool)
    ensures
        ({
            let said = upper_text(trim(name));
            let shape = pad_shape(name, equal_sides);
            &&& has_part(said, "RECT"@) ==> shape == 9
            &&& !has_part(said, "RECT"@) && has_part(said, "POLY"@) ==> shape == 2
            &&& !has_part(said, "RECT"@) && !has_part(said, "POLY"@) && has_part(said, "OCT"@)
                ==> shape == 3
            &&& !has_part(said, "RECT"@) && !has_part(said, "POLY"@) && !has_part(said, "OCT"@) ==> (
            shape == 9 || shape == 1) && (shape == 1 <==> equal_sides && !has_part(said, "OVAL"@))
        }),
{
}

// Rows

/// Whether a row starts with a word, in whatever case and with whatever white space
/// around it.
pub open spec fn is_row_of(row: Seq<Cell>, word: Seq<char>) -> bool {
    row.len() > 0 && (row[0] matches Cell::Text { text, number } && same_but_case(
        trim(text@),
        word,
    ))
}

/// Whether there is a number in place `i` of a row.
pub open spec fn is_number(row: Seq<Cell>, i: int, n: Numeral) -> bool {
    0 <= i < row.len() && row[i].number() == Some(n)
}

proof fn lemma_row_kind(row: Seq<Cell>, word: Seq<char>)
    requires
        is_row_of(row, word),
        upper_text(word) == word,
    ensures
        row_kind(row) == Some(word),
{
    if let Cell::Text { text, number } = row[0] {
        law_same_but_case(trim(text@), word);
    }
}

proof fn lemma_row_words()
    ensures
        upper_text("TRACK"@) == "TRACK"@,
        upper_text("RECT"@) == "RECT"@,
        upper_text("CIRCLE"@) == "CIRCLE"@,
        upper_text("ARC"@) == "ARC"@,
        upper_text("POLY"@) == "POLY"@,
        upper_text("FILL"@) == "FILL"@,
        upper_text("PAD"@) == "PAD"@,
        "TRACK"@.len() == 5 && "TRACK"@[0] == 'T',
        "RECT"@.len() == 4 && "RECT"@[0] == 'R',
        "CIRCLE"@.len() == 6 && "CIRCLE"@[0] == 'C',
        "ARC"@.len() == 3 && "ARC"@[0] == 'A',
        "POLY"@.len() == 4 && "POLY"@[0] == 'P',
        "FILL"@.len() == 4 && "FILL"@[0] == 'F',
        "PAD"@.len() == 3 && "PAD"@[0] == 'P',
{
    reveal_strlit("TRACK");
    reveal_strlit("RECT");
    reveal_strlit("CIRCLE");
    reveal_strlit("ARC");
    reveal_strlit("POLY");
    reveal_strlit("FILL");
    reveal_strlit("PAD");
    assert(upper_text("TRACK"@) =~= "TRACK"@);
    assert(upper_text("RECT"@) =~= "RECT"@);
    assert(upper_text("CIRCLE"@) =~= "CIRCLE"@);
    assert(upper_text("ARC"@) =~= "ARC"@);
    assert(upper_text("POLY"@) =~= "POLY"@);
    assert(upper_text("FILL"@) =~= "FILL"@);
    assert(upper_text("PAD"@) =~= "PAD"@);
}

/// What one figure of a row comes to: it is left out where its layer is, and is else
/// drawn with the given role or says how far the body reaches.
pub open spec fn is_drawn_as(
    drafts: Seq<DraftModel>,
    code: i32,
    drawn: Role,
    width: Real,
    figure: FigureModel,
) -> bool {
    match role_on(code, drawn) {
        Some(role) => drafts.len() == 1 && drafts[0].role == role && drafts[0].layer_code == code
            && drafts[0].width == width && drafts[0].figure == figure,
        None => drafts.len() == 0,
    }
}

/// A row `TRACK` draws the line between the two points whose coordinates it gives
/// behind its width.
pub proof fn law_track_row(
    row: Seq<Cell>,
    layer: Numeral,
    width: Numeral,
    x1: Numeral,
    y1: Numeral,
    x2: Numeral,
    y2: Numeral,
)
    requires
        is_row_of(row, "TRACK"@),
        is_number(row, 4, layer),
        is_number(row, 5, width),
        is_number(row, 6, x1),
        is_number(row, 7, y1),
        is_number(row, 8, x2),
        is_number(row, 9, y2),
    ensures
        is_drawn_as(
            drafts_in(row),
            layer.rounded,
            Role::Stroke,
            width.value,
            FigureModel::Segment { x1: x1.value, y1: y1.value, x2: x2.value, y2: y2.value },
        ),
{
    lemma_row_words();
    lemma_row_kind(row, "TRACK"@);
}

/// A row `RECT` draws the box with the two corners whose coordinates it gives behind
/// its width.
pub proof fn law_box_row(
    row: Seq<Cell>,
    layer: Numeral,
    width: Numeral,
    x1: Numeral,
    y1: Numeral,
    x2: Numeral,
    y2: Numeral,
)
    requires
        is_row_of(row, "RECT"@),
        is_number(row, 4, layer),
        is_number(row, 5, width),
        is_number(row, 6, x1),
        is_number(row, 7, y1),
        is_number(row, 8, x2),
        is_number(row, 9, y2),
    ensures
        is_drawn_as(
            drafts_in(row),
            layer.rounded,
            Role::Stroke,
            width.value,
            FigureModel::Frame { x1: x1.value, y1: y1.value, x2: x2.value, y2: y2.value },
        ),
{
    lemma_row_words();
    lemma_row_kind(row, "RECT"@);
}

/// A row `CIRCLE` draws the circle, and a row `ARC` the part of one between two
/// angles, whose center and radius it gives behind its width. The sign of the radius
/// does not count, and where it is next to nothing nothing is drawn.
pub proof fn law_circle_rows(
    row: Seq<Cell>,
    layer: Numeral,
    width: Numeral,
    cx: Numeral,
    cy: Numeral,
    radius: Numeral,
    start: Numeral,
    end: Numeral,
)
    requires
        is_row_of(row, "CIRCLE"@) || is_row_of(row, "ARC"@),
        is_number(row, 4, layer),
        is_number(row, 5, width),
        is_number(row, 6, cx),
        is_number(row, 7, cy),
        is_number(row, 8, radius),
        is_number(row, 9, start),
        is_number(row, 10, end),
    ensures
        ({
            let circle = crate::cells::Circle {
                cx: cx.value,
                cy: cy.value,
                radius: radius.value.spec_abs(),
            };
            let tiny = circle.radius.le(Real { bits: 0x3eb0_c6f7_a0b5_ed8d });
            &&& tiny ==> drafts_in(row).len() == 0
            &&& !tiny && is_row_of(row, "CIRCLE"@) ==> is_drawn_as(
                drafts_in(row),
                layer.rounded,
                Role::Stroke,
                width.value,
                FigureModel::Circle(circle),
            )
            &&& !tiny && is_row_of(row, "ARC"@) ==> is_drawn_as(
                drafts_in(row),
                layer.rounded,
                Role::Stroke,
                width.value,
                FigureModel::Arc { circle, start: start.value, end: end.value },
            )
        }),
{
    lemma_row_words();
    if is_row_of(row, "CIRCLE"@) {
        lemma_row_kind(row, "CIRCLE"@);
    }
    if is_row_of(row, "ARC"@) {
        lemma_row_kind(row, "ARC"@);
    }
}

/// A row `POLY` draws along the figure that its list says, where it has one: a
/// circle, or a path of two points or more.
pub proof fn law_path_row(row: Seq<Cell>, layer: Numeral, width: Numeral)
    requires
        is_row_of(row, "POLY"@),
        is_number(row, 4, layer),
        is_number(row, 5, width),
    ensures
        row.len() <= 6 ==> drafts_in(row).len() == 0,
        row.len() > 6 && circle_of(row[6]) is None ==> is_drawn_as(
            drafts_in(row),
            layer.rounded,
            Role::Stroke,
            width.value,
            FigureModel::Path { steps: path_of(row[6]), least: 2 },
        ),
        row.len() > 6 ==> (circle_of(row[6]) matches Some(circle) ==> is_drawn_as(
            drafts_in(row),
            layer.rounded,
            Role::Stroke,
            width.value,
            FigureModel::Circle(circle),
        )),
{
    lemma_row_words();
    lemma_row_kind(row, "POLY"@);
}

/// A row `FILL` fills the figure that its list says: a circle, or a path of three
/// points or more. Where it has a list of lists, it fills each of them.
pub proof fn law_fill_row(row: Seq<Cell>, layer: Numeral, width: Numeral, items: Seq<Cell>)
    requires
        is_row_of(row, "FILL"@),
        is_number(row, 4, layer),
        is_number(row, 5, width),
        row.len() > 7,
        items_of(row[7]) == Some(items),
    ensures
        ({
            let single = items.len() == 0 || !(items[0] is List);
            &&& single && circle_of(row[7]) is None ==> is_drawn_as(
                drafts_in(row),
                layer.rounded,
                Role::Fill,
                width.value,
                FigureModel::Path { steps: path_of(row[7]), least: 3 },
            )
            &&& single ==> (circle_of(row[7]) matches Some(circle) ==> is_drawn_as(
                drafts_in(row),
                layer.rounded,
                Role::Fill,
                width.value,
                FigureModel::Circle(circle),
            ))
            &&& !single ==> drafts_in(row) == shape_drafts(row, items, items.len() as int)
        }),
{
    lemma_row_words();
    lemma_row_kind(row, "FILL"@);
    reveal_with_fuel(shape_drafts, 2);
    let shapes = fill_shapes(row[7]);
    if items.len() == 0 || !(items[0] is List) {
        assert(shapes =~= seq![row[7]]);
        assert(shape_drafts(row, shapes, 0) =~= Seq::<DraftModel>::empty());
        assert(drafts_in(row) =~= crate::footprint::drafts_for(
            row,
            Role::Fill,
            width.value,
            figure_of(row[7], 3),
        ));
    }
}

/// Each of the lists that a row `FILL` has adds the figure that it says, in its turn.
pub proof fn law_fill_shapes(
    row: Seq<Cell>,
    shapes: Seq<Cell>,
    n: int,
    layer: Numeral,
    width: Numeral,
)
    requires
        0 <= n < shapes.len(),
        is_number(row, 4, layer),
        is_number(row, 5, width),
    ensures
        ({
            let before = shape_drafts(row, shapes, n);
            let after = shape_drafts(row, shapes, n + 1);
            let figure = match circle_of(shapes[n]) {
                Some(circle) => FigureModel::Circle(circle),
                None => FigureModel::Path { steps: path_of(shapes[n]), least: 3 },
            };
            &&& before.is_prefix_of(after)
            &&& is_drawn_as(
                after.skip(before.len() as int),
                layer.rounded,
                Role::Fill,
                width.value,
                figure,
            )
        }),
{
    let before = shape_drafts(row, shapes, n);
    let after = shape_drafts(row, shapes, n + 1);
    assert(after.take(before.len() as int) =~= before);
}

/// The figures of a drawing come in the order of its rows, and rows of other kinds
/// draw nothing.
pub proof fn law_drawn_in_order(rows: Seq<Seq<Cell>>, n: int)
    requires
        0 <= n < rows.len(),
    ensures
        sketched_drafts(rows, n + 1) == sketched_drafts(rows, n) + drafts_in(rows[n]),
        sketched_drafts(rows, 0).len() == 0,
        is_pad_row(rows[n]) ==> drafts_in(rows[n]).len() == 0,
        rows[n].len() == 0 || !(rows[n][0] is Text) ==> drafts_in(rows[n]).len() == 0
            && !is_pad_row(rows[n]),
{
    lemma_row_words();
    let row = rows[n];
    if is_pad_row(row) {
        assert(row_kind(row)->0.len() == 3);
        assert("PAD"@[0] == 'P' && "ARC"@[0] == 'A');
    }
}

// Pads

/// How many of the first `n` rows say a pad, and how many of these pads have no
/// designator.
pub open spec fn pad_count(rows: Seq<Seq<Cell>>, n: int) -> nat
    decreases n,
{
    if n <= 0 {
        0
    } else {
        pad_count(rows, n - 1) + if is_row_of(rows[n - 1], "PAD"@) {
            1nat
        } else {
            0nat
        }
    }
}

pub open spec fn is_nameless(row: Seq<Cell>) -> bool {
    row.len() <= 5 || (row[5].text() matches Some(text) ==> trim(text).len() == 0)
}

pub open spec fn nameless_count(rows: Seq<Seq<Cell>>, n: int) -> nat
    decreases n,
{
    if n <= 0 {
        0
    } else {
        nameless_count(rows, n - 1) + if is_row_of(rows[n - 1], "PAD"@) && is_nameless(
            rows[n - 1],
        ) {
            1nat
        } else {
            0nat
        }
    }
}

proof fn lemma_is_pad_row(row: Seq<Cell>)
    ensures
        is_pad_row(row) == is_row_of(row, "PAD"@),
{
    lemma_row_words();
    if is_row_of(row, "PAD"@) {
        lemma_row_kind(row, "PAD"@);
    }
    if is_pad_row(row) {
        if let Cell::Text { text, number } = row[0] {
            law_same_but_case(trim(text@), "PAD"@);
        }
    }
}

proof fn lemma_nameless(row: Seq<Cell>)
    ensures
        (trim(crate::cells::text_or(row, 5, ""@)).len() == 0) == is_nameless(row),
{
    reveal_strlit("");
    assert(trim(""@).len() == 0);
}

proof fn lemma_pads_sketched(rows: Seq<Seq<Cell>>, n: int, r: int)
    requires
        0 <= n <= rows.len(),
    ensures
        sketched_pads(rows, n).0.len() == pad_count(rows, n),
        sketched_pads(rows, n).1 == 1 + nameless_count(rows, n),
        0 <= r < n && is_row_of(rows[r], "PAD"@) ==> pad_count(rows, r) < pad_count(rows, n)
            && sketched_pads(rows, n).0[pad_count(rows, r) as int] == pad_in(
            rows[r],
            1 + nameless_count(rows, r),
        ),
    decreases n,
{
    if n > 0 {
        lemma_pads_sketched(rows, n - 1, r);
        lemma_is_pad_row(rows[n - 1]);
        lemma_nameless(rows[n - 1]);
        if r == n - 1 {
            lemma_pads_sketched(rows, n - 1, 0);
        }
    }
}

/// The pads of a drawing come in the order of their rows. One whose row gives it a
/// designator has that, and those without are numbered from 1 on.
pub proof fn law_pads_named(rows: Seq<Seq<Cell>>, r: int)
    requires
        0 <= r < rows.len(),
        is_row_of(rows[r], "PAD"@),
    ensures
        ({
            let pads = sketched_pads(rows, rows.len() as int).0;
            let at = pad_count(rows, r) as int;
            &&& pads.len() == pad_count(rows, rows.len() as int)
            &&& at < pads.len()
            &&& is_nameless(rows[r]) ==> pads[at].designator == decimal(1 + nameless_count(rows, r))
            &&& !is_nameless(rows[r]) ==> Some(pads[at].designator) == rows[r][5].text()
        }),
{
    lemma_pads_sketched(rows, rows.len() as int, r);
    lemma_nameless(rows[r]);
}

/// A row `PAD` gives the layer, the place and the rotation of a pad, and its mask,
/// each in a place of its own. Where the place for the rotation is not a number,
/// there is another, and where that for the mask is not more than zero there is
/// another.
pub proof fn law_pad_row(
    row: Seq<Cell>,
    next: nat,
    layer: Numeral,
    x: Numeral,
    y: Numeral,
    rotation: Numeral,
    other: Numeral,
    mask: Numeral,
    spare: Numeral,
)
    requires
        is_number(row, 4, layer),
        is_number(row, 6, x),
        is_number(row, 7, y),
        is_number(row, 8, rotation),
        is_number(row, 14, other),
        is_number(row, 17, mask),
        is_number(row, 18, spare),
    ensures
        ({
            let pad = pad_in(row, next);
            &&& pad.layer_code == layer.rounded
            &&& pad.x == x.value && pad.y == y.value
            &&& !rotation.value.spec_is_nan() ==> pad.rotation == rotation.value
            &&& rotation.value.spec_is_nan() ==> pad.rotation == other.value
            &&& zero().lt(mask.value) ==> pad.mask_units == Some(mask.value)
            &&& !zero().lt(mask.value) && zero().lt(spare.value) ==> pad.mask_units == Some(
                spare.value,
            )
            &&& !zero().lt(mask.value) && !zero().lt(spare.value) ==> pad.mask_units is None
        }),
{
}

/// The hole of a pad is given by its shape and its two sizes. Of a slot the smaller
/// is that across and the larger that along, whichever comes first. The size along
/// is never below the size across, and neither hole is below zero across.
pub proof fn law_pad_hole(
    row: Seq<Cell>,
    next: nat,
    items: Seq<Cell>,
    shape: Seq<char>,
    first: Numeral,
    second: Numeral,
)
    requires
        row.len() > 9,
        items_of(row[9]) == Some(items),
        items.len() > 0,
        items[0].text() == Some(shape),
        is_number(items, 1, first),
        is_number(items, 2, second),
        zero().le(first.value),
        zero().le(second.value),
    ensures
        ({
            let pad = pad_in(row, next);
            &&& pad.hole_shape == shape
            &&& same_but_case(trim(shape), "SLOT"@) ==> pad.hole.rank() <= pad.hole_slot.rank() && (
            pad.hole.rank() == first.value.rank() && pad.hole_slot.rank() == second.value.rank()
                || pad.hole.rank() == second.value.rank() && pad.hole_slot.rank()
                == first.value.rank())
            &&& !same_but_case(trim(shape), "SLOT"@) ==> pad.hole.rank() == first.value.rank()
                && first.value.le(pad.hole_slot) && second.value.le(pad.hole_slot)
        }),
{
}

/// The outline of a pad is given by its shape and its two sides. Where only one side
/// is given, the other is as long. Of a polygon a path is given in their place.
pub proof fn law_pad_shape_row(
    row: Seq<Cell>,
    next: nat,
    items: Seq<Cell>,
    shape: Seq<char>,
    width: Numeral,
)
    requires
        row.len() > 10,
        items_of(row[10]) == Some(items),
        items.len() > 0,
        items[0].text() == Some(shape),
    ensures
        ({
            let pad = pad_in(row, next);
            &&& pad.shape == shape
            &&& !same_but_case(shape, "POLY"@) && is_number(items, 1, width) ==> pad.width
                == width.value && pad.path is None
            &&& !same_but_case(shape, "POLY"@) && is_number(items, 1, width) && items.len() == 2
                ==> pad.height == width.value
            &&& !same_but_case(shape, "POLY"@) && items.len() > 2 ==> (
            items[2].number() matches Some(n) ==> pad.height == n.value)
            &&& same_but_case(shape, "POLY"@) && items.len() > 1 ==> pad.path == Some(
                path_of(items[1]),
            )
            &&& same_but_case(shape, "POLY"@) ==> pad.width.bits == 0x4024_0000_0000_0000
                && pad.height.bits == 0x4024_0000_0000_0000
        }),
{
}

// Paths

/// Two numbers in a row where a path goes on are its next point.
pub proof fn law_path_point(cells: Seq<Cell>, i: int, x: Numeral, y: Numeral)
    requires
        0 <= i < cells.len(),
        !(cells[i] is Text),
        is_number(cells, i, x),
        is_number(cells, i + 1, y),
    ensures
        steps_from(cells, i) == seq![PathStep::Point { x: x.value, y: y.value }] + steps_from(
            cells,
            i + 2,
        ),
{
}

/// Whether a command stands in a place, in whatever case.
pub open spec fn is_command(cells: Seq<Cell>, i: int, word: Seq<char>) -> bool {
    0 <= i < cells.len() && (cells[i] matches Cell::Text { text, number } && same_but_case(
        trim(text@),
        word,
    ))
}

proof fn lemma_command(cells: Seq<Cell>, i: int, word: Seq<char>)
    requires
        is_command(cells, i, word),
        upper_text(word) == word,
    ensures
        crate::cells::command_in(cells[i]) == Some(word),
{
    if let Cell::Text { text, number } = cells[i] {
        law_same_but_case(trim(text@), word);
    }
}

/// Behind `R` a path has a rectangle: its corner, its sides and its radius.
pub proof fn law_path_rectangle(
    cells: Seq<Cell>,
    i: int,
    x: Numeral,
    y: Numeral,
    width: Numeral,
    height: Numeral,
    radius: Numeral,
)
    requires
        is_command(cells, i, "R"@),
        is_number(cells, i + 1, x),
        is_number(cells, i + 2, y),
        is_number(cells, i + 3, width),
        is_number(cells, i + 4, height),
        is_number(cells, i + 5, radius),
    ensures
        steps_from(cells, i) == seq![
            PathStep::Rect {
                x: x.value,
                y: y.value,
                width: width.value,
                height: height.value,
                radius: radius.value,
            },
        ] + steps_from(cells, i + 6),
{
    reveal_strlit("R");
    reveal_strlit("L");
    assert(upper_text("R"@) =~= "R"@);
    assert("R"@[0] != "L"@[0]);
    lemma_command(cells, i, "R"@);
}

/// Behind `ARC` or `A` a path has an arc: its sweep and its end.
pub proof fn law_path_arc(cells: Seq<Cell>, i: int, sweep: Numeral, x: Numeral, y: Numeral)
    requires
        is_command(cells, i, "ARC"@) || is_command(cells, i, "A"@),
        is_number(cells, i + 1, sweep),
        is_number(cells, i + 2, x),
        is_number(cells, i + 3, y),
    ensures
        steps_from(cells, i) == seq![
            PathStep::Arc { sweep: sweep.value, x: x.value, y: y.value },
        ] + steps_from(cells, i + 4),
{
    reveal_strlit("ARC");
    reveal_strlit("A");
    reveal_strlit("R");
    reveal_strlit("L");
    assert(upper_text("ARC"@) =~= "ARC"@);
    assert(upper_text("A"@) =~= "A"@);
    assert("R"@[0] != "A"@[0] && "L"@[0] != "A"@[0]);
    assert("ARC"@[0] == 'A' && "R"@[0] == 'R' && "L"@[0] == 'L');
    if is_command(cells, i, "ARC"@) {
        lemma_command(cells, i, "ARC"@);
    } else {
        lemma_command(cells, i, "A"@);
    }
}

/// Behind `L` a path has points, as long as there are pairs of numbers: from a pair
/// of numbers on the first point is that pair, and the others are those behind it.
pub proof fn law_path_lines(cells: Seq<Cell>, i: int, x: Numeral, y: Numeral)
    requires
        is_command(cells, i, "L"@),
    ensures
        steps_from(cells, i) == points_from(cells, i + 1) + steps_from(
            cells,
            i + 1 + 2 * points_from(cells, i + 1).len(),
        ),
        is_number(cells, i + 1, x) && is_number(cells, i + 2, y) ==> points_from(cells, i + 1)
            == seq![PathStep::Point { x: x.value, y: y.value }] + points_from(cells, i + 3),
        i + 1 >= cells.len() || cells[i + 1].number() is None ==> points_from(cells, i + 1).len()
            == 0,
{
    reveal_strlit("L");
    assert(upper_text("L"@) =~= "L"@);
    lemma_command(cells, i, "L"@);
}

/// A list is a circle where it starts with that word and has a radius above next to
/// nothing. It is then no path.
pub proof fn law_listed_circle(items: Seq<Cell>, cx: Numeral, cy: Numeral, radius: Numeral)
    requires
        items.len() >= 4,
        items[0].text() matches Some(word) && same_but_case(word, "CIRCLE"@),
        is_number(items, 1, cx),
        is_number(items, 2, cy),
        is_number(items, 3, radius),
        (Real { bits: 0x3eb0_c6f7_a0b5_ed8d }).lt(radius.value.spec_abs()),
    ensures
        listed_circle(items) == Some(
            crate::cells::Circle {
                cx: cx.value,
                cy: cy.value,
                radius: radius.value.spec_abs(),
            },
        ),
{
}

// Lines of a drawing

/// The lines of a drawing that are not blank are numbered as they stand, from 1 on,
/// and come trimmed and in their order.
pub proof fn law_lines_numbered(lines: Seq<Seq<char>>, n: int)
    requires
        0 < n <= lines.len(),
    ensures
        trim(lines[n - 1]).len() > 0 ==> numbered_lines(lines, n) == numbered_lines(
            lines,
            n - 1,
        ).push((n as nat, trim(lines[n - 1]))),
        trim(lines[n - 1]).len() == 0 ==> numbered_lines(lines, n) == numbered_lines(lines, n - 1),
        numbered_lines(lines, 0).len() == 0,
{
}

/// The rows of a drawing are those of its values that are lists, in their order.
pub proof fn law_rows_listed(a: Seq<ParsedLine>, b: Seq<ParsedLine>, line: ParsedLine)
    ensures
        list_rows(a + b) == list_rows(a) + list_rows(b),
        line.1 matches Ok(Cell::List(items)) ==> list_rows(seq![line]) == seq![items@],
        !(line.1 matches Ok(Cell::List(items))) ==> list_rows(seq![line]).len() == 0,
    decreases b.len(),
{
    reveal_with_fuel(list_rows, 2);
    assert(seq![line].drop_last() =~= Seq::<ParsedLine>::empty());
    assert(list_rows(seq![line].drop_last()) =~= Seq::<Seq<Cell>>::empty());
    if let Ok(Cell::List(items)) = line.1 {
        assert(list_rows(seq![line]) =~= seq![items@]);
    }
    if b.len() == 0 {
        assert(a + b =~= a);
        assert(list_rows(a) + list_rows(b) =~= list_rows(a));
    } else {
        assert((a + b).drop_last() =~= a + b.drop_last());
        law_rows_listed(a, b.drop_last(), line);
        assert(list_rows(a + b) =~= list_rows(a) + list_rows(b));
    }
}

// What is missing

/// Whether a row has no number in place `i`.
pub open spec fn lacks_number(row: Seq<Cell>, i: int) -> bool {
    i >= row.len() || row[i].number() is None
}

/// What a row leaves out has a value all the same: a coordinate is zero, the second
/// corner of a box is its first, a line is six units wide, and a pad is on the top.
pub proof fn law_defaults(row: Seq<Cell>, next: nat, layer: Numeral)
    requires
        is_number(row, 4, layer),
        forall|i: int| 5 <= i < 19 ==> #[trigger] lacks_number(row, i),
    ensures
        is_row_of(row, "TRACK"@) ==> is_drawn_as(
            drafts_in(row),
            layer.rounded,
            Role::Stroke,
            Real { bits: 0x4018_0000_0000_0000 },
            FigureModel::Segment { x1: zero(), y1: zero(), x2: zero(), y2: zero() },
        ),
        is_row_of(row, "CIRCLE"@) || is_row_of(row, "ARC"@) ==> drafts_in(row).len() == 0,
        ({
            let pad = pad_in(row, next);
            &&& pad.x == zero() && pad.y == zero() && pad.rotation == zero()
            &&& pad.mask_units is None
        }),
{
    lemma_row_words();
    assert(lacks_number(row, 5) && lacks_number(row, 6) && lacks_number(row, 7) && lacks_number(
        row,
        8,
    ) && lacks_number(row, 9) && lacks_number(row, 10));
    assert(lacks_number(row, 14) && lacks_number(row, 17) && lacks_number(row, 18));
    if is_row_of(row, "TRACK"@) {
        lemma_row_kind(row, "TRACK"@);
    }
    if is_row_of(row, "CIRCLE"@) {
        lemma_row_kind(row, "CIRCLE"@);
    }
    if is_row_of(row, "ARC"@) {
        lemma_row_kind(row, "ARC"@);
    }
}

/// The second corner of a box is where its row says, and where that says nothing it
/// is the first corner.
pub proof fn law_box_corner(row: Seq<Cell>, layer: Numeral, width: Numeral, x1: Numeral, y1: Numeral)
    requires
        is_row_of(row, "RECT"@),
        is_number(row, 4, layer),
        is_number(row, 5, width),
        is_number(row, 6, x1),
        is_number(row, 7, y1),
        lacks_number(row, 8),
        lacks_number(row, 9),
    ensures
        is_drawn_as(
            drafts_in(row),
            layer.rounded,
            Role::Stroke,
            width.value,
            FigureModel::Frame { x1: x1.value, y1: y1.value, x2: x1.value, y2: y1.value },
        ),
{
    lemma_row_words();
    lemma_row_kind(row, "RECT"@);
}

/// A pad whose row says nothing of it is a round one of ten units without a hole, on
/// the top layer.
pub proof fn law_bare_pad(row: Seq<Cell>, next: nat)
    requires
        row.len() <= 4,
    ensures
        ({
            let pad = pad_in(row, next);
            &&& pad.layer_code == 1
            &&& pad.width.bits == 0x4024_0000_0000_0000 && pad.height.bits == 0x4024_0000_0000_0000
            &&& pad.hole == zero() && pad.hole_slot == zero()
            &&& pad.shape == "ROUND"@ && pad.hole_shape == "ROUND"@
            &&& pad.path is None
            &&& pad.designator == decimal(next)
        }),
{
    lemma_nameless(row);
    reveal_strlit("");
}

/// The line that is named as wrong is the first that cannot be parsed, and there is
/// just one such line. It is named by its number and by what is wrong with it.
pub proof fn law_first_failure(
    lines: Seq<ParsedLine>,
    m: int,
    n: int,
    number: nat,
    error: Seq<char>,
)
    ensures
        fails_first(lines, m) && fails_first(lines, n) ==> m == n,
        fails_first(lines, n) ==> lines[n].1 is Err && forall|i: int|
            0 <= i < n ==> (#[trigger] lines[i]).1 is Ok,
        crate::text::has_suffix(
            row_error(number, error),
            seq![' '] + decimal(number) + seq![':', ' '] + error,
        ),
{
    if fails_first(lines, m) && fails_first(lines, n) {
        if m < n {
            assert(lines[m].1 is Ok);
        } else if n < m {
            assert(lines[n].1 is Ok);
        }
    }
    reveal_strlit("invalid EasyEDA dataStr row ");
    reveal_strlit(": ");
    let text = row_error(number, error);
    let end = seq![' '] + decimal(number) + seq![':', ' '] + error;
    assert(text.skip(text.len() - end.len()) =~= end);
}

} // verus!
