//! What the rows of a footprint draw: its pads, its lines and areas, and the
//! texts that describe it.

use vstd::prelude::*;
use crate::cells::{
    circle_of, items_of, number_at, number_in, parse_path_steps, path_of, real_in, row_i32,
    row_real, row_string, row_text_or, text_or, try_parse_circle_shape, whole_in, Cell, Circle,
    PathStep,
};
use crate::reals::{zero, Real, SIX_BITS, TEN_BITS, ZERO_BITS};
use crate::pcblib::{
    LAYER_BOTTOM, LAYER_BOTTOM_OVERLAY, LAYER_BOTTOM_PASTE, LAYER_BOTTOM_SOLDER,
    LAYER_MECHANICAL_1, LAYER_MECHANICAL_2, LAYER_MECHANICAL_5, LAYER_MECHANICAL_6, LAYER_MULTI,
    LAYER_TOP, LAYER_TOP_OVERLAY, LAYER_TOP_PASTE, LAYER_TOP_SOLDER, PAD_HOLE_ROUND, PAD_HOLE_SLOT,
    PAD_HOLE_SQUARE, PAD_SHAPE_OCTAGONAL, PAD_SHAPE_RECTANGULAR, PAD_SHAPE_ROUND,
    PAD_SHAPE_ROUNDED_RECTANGLE,
};
use crate::schlib::optional;
use crate::text::{
    decimal, decimal_text, has_part, same_but_case, same_text, same_text_but_case, text_has_part,
    trim, trimmed, upper_text, uppercased,
};

verus! {

// Layers

/// Whether lines and areas on a layer are drawn.
pub open spec fn is_overlay(layer_code: i32) -> bool {
    layer_code == 3 || layer_code == 4 || layer_code == 12 || layer_code == 13 || layer_code == 49
}

pub fn is_overlay_layer(layer_code: i32) -> (r: bool)
    ensures
        r == is_overlay(layer_code),
{
    matches!(layer_code, 3 | 4 | 12 | 13 | 49)
}

/// Whether what is on a layer says how far the body of the component reaches.
pub open spec fn is_body(layer_code: i32) -> bool {
    layer_code == 48 || layer_code == 99
}

pub fn is_component_body_layer(layer_code: i32) -> (r: bool)
    ensures
        r == is_body(layer_code),
{
    matches!(layer_code, 48 | 99)
}

/// The layer that lines and areas on a layer are drawn on.
pub open spec fn graphic_layer(layer_code: i32) -> u8 {
    if layer_code == 1 {
        LAYER_TOP
    } else if layer_code == 2 {
        LAYER_BOTTOM
    } else if layer_code == 4 {
        LAYER_BOTTOM_OVERLAY
    } else if layer_code == 5 {
        LAYER_TOP_SOLDER
    } else if layer_code == 6 {
        LAYER_BOTTOM_SOLDER
    } else if layer_code == 7 {
        LAYER_TOP_PASTE
    } else if layer_code == 8 {
        LAYER_BOTTOM_PASTE
    } else if layer_code == 11 || layer_code == 48 {
        LAYER_MECHANICAL_1
    } else if layer_code == 12 {
        LAYER_MULTI
    } else if layer_code == 13 {
        LAYER_MECHANICAL_2
    } else if layer_code == 50 {
        LAYER_MECHANICAL_5
    } else if layer_code == 51 {
        LAYER_MECHANICAL_6
    } else {
        LAYER_TOP_OVERLAY
    }
}

pub fn map_graphic_layer(layer_code: i32) -> (r: u8)
    ensures
        r == graphic_layer(layer_code),
{
    match layer_code {
        1 => LAYER_TOP,
        2 => LAYER_BOTTOM,
        3 => LAYER_TOP_OVERLAY,
        4 => LAYER_BOTTOM_OVERLAY,
        5 => LAYER_TOP_SOLDER,
        6 => LAYER_BOTTOM_SOLDER,
        7 => LAYER_TOP_PASTE,
        8 => LAYER_BOTTOM_PASTE,
        11 | 48 => LAYER_MECHANICAL_1,
        13 => LAYER_MECHANICAL_2,
        49 => LAYER_TOP_OVERLAY,
        50 => LAYER_MECHANICAL_5,
        51 => LAYER_MECHANICAL_6,
        12 => LAYER_MULTI,
        _ => LAYER_TOP_OVERLAY,
    }
}

/// The layer that a pad is on. A pad with a hole goes through all of them.
pub open spec fn pad_layer(layer_code: i32, has_hole: bool) -> u8 {
    if layer_code == 12 || has_hole {
        LAYER_MULTI
    } else if layer_code == 2 {
        LAYER_BOTTOM
    } else {
        LAYER_TOP
    }
}

pub fn map_pad_layer(layer_code: i32, has_hole: bool) -> (r: u8)
    ensures
        r == pad_layer(layer_code, has_hole),
{
    if layer_code == 12 || has_hole {
        LAYER_MULTI
    } else if layer_code == 2 {
        LAYER_BOTTOM
    } else {
        LAYER_TOP
    }
}

/// The layers, with their names, that the mask of a pad is open on.
pub open spec fn mask_layers(layer_code: i32, has_hole: bool) -> Seq<(u8, Seq<char>)> {
    if layer_code == 2 {
        seq![(LAYER_BOTTOM, "BOTTOM"@)]
    } else if layer_code == 12 || has_hole {
        seq![(LAYER_TOP, "TOP"@), (LAYER_BOTTOM, "BOTTOM"@)]
    } else {
        seq![(LAYER_TOP, "TOP"@)]
    }
}

pub open spec fn layer_views(layers: Seq<(u8, &'static str)>) -> Seq<(u8, Seq<char>)> {
    layers.map_values(|layer: (u8, &'static str)| (layer.0, layer.1@))
}

pub fn mask_region_layers(layer_code: i32, has_hole: bool) -> (r: Vec<(u8, &'static str)>)
    ensures
        layer_views(r@) == mask_layers(layer_code, has_hole),
{
    let mut layers: Vec<(u8, &'static str)> = Vec::new();
    if layer_code == 2 {
        layers.push((LAYER_BOTTOM, "BOTTOM"));
    } else if layer_code == 12 || has_hole {
        layers.push((LAYER_TOP, "TOP"));
        layers.push((LAYER_BOTTOM, "BOTTOM"));
    } else {
        layers.push((LAYER_TOP, "TOP"));
    }
    assert(layer_views(layers@) =~= mask_layers(layer_code, has_hole));
    layers
}

// Pads

/// The kind of hole that goes by a name.
pub open spec fn hole_type(name: Seq<char>) -> u8 {
    let upper = upper_text(trim(name));
    if has_part(upper, "SLOT"@) {
        PAD_HOLE_SLOT
    } else if has_part(upper, "SQUARE"@) || has_part(upper, "RECT"@) {
        PAD_HOLE_SQUARE
    } else {
        PAD_HOLE_ROUND
    }
}

pub fn map_pad_hole_type(name: &str) -> (r: u8)
    ensures
        r == hole_type(name@),
{
    let bare = trimmed(name);
    let upper = uppercased(bare.as_str());
    if text_has_part(upper.as_str(), "SLOT") {
        PAD_HOLE_SLOT
    } else if text_has_part(upper.as_str(), "SQUARE") || text_has_part(upper.as_str(), "RECT") {
        PAD_HOLE_SQUARE
    } else {
        PAD_HOLE_ROUND
    }
}

/// The shape that goes by a name, of a pad whose sides are of equal length or not.
pub open spec fn pad_shape(name: Seq<char>, equal_sides: bool) -> u8 {
    let upper = upper_text(trim(name));
    if has_part(upper, "RECT"@) {
        PAD_SHAPE_ROUNDED_RECTANGLE
    } else if has_part(upper, "POLY"@) {
        PAD_SHAPE_RECTANGULAR
    } else if has_part(upper, "OCT"@) {
        PAD_SHAPE_OCTAGONAL
    } else if has_part(upper, "OVAL"@) || !equal_sides {
        PAD_SHAPE_ROUNDED_RECTANGLE
    } else {
        PAD_SHAPE_ROUND
    }
}

pub fn map_pad_shape(name: &str, equal_sides: bool) -> (r: u8)
    ensures
        r == pad_shape(name@, equal_sides),
{
    let bare = trimmed(name);
    let upper = uppercased(bare.as_str());
    if text_has_part(upper.as_str(), "RECT") {
        PAD_SHAPE_ROUNDED_RECTANGLE
    } else if text_has_part(upper.as_str(), "POLY") {
        PAD_SHAPE_RECTANGULAR
    } else if text_has_part(upper.as_str(), "OCT") {
        PAD_SHAPE_OCTAGONAL
    } else if text_has_part(upper.as_str(), "OVAL") {
        PAD_SHAPE_ROUNDED_RECTANGLE
    } else if equal_sides {
        PAD_SHAPE_ROUND
    } else {
        PAD_SHAPE_ROUNDED_RECTANGLE
    }
}

/// A pad as its row says it. Where its shape is a path, that is still to be
/// measured.
#[derive(Debug)]
pub struct PadSketch {
    pub designator: String,
    pub x: Real,
    pub y: Real,
    pub width: Real,
    pub height: Real,
    pub hole: Real,
    pub hole_slot: Real,
    pub hole_shape: String,
    pub rotation: Real,
    pub layer_code: i32,
    pub shape: String,
    pub path: Option<Vec<PathStep>>,
    pub mask_units: Option<Real>,
}

/// What a [`PadSketch`] holds.
#[verifier::ext_equal]
pub struct PadModel {
    pub designator: Seq<char>,
    pub x: Real,
    pub y: Real,
    pub width: Real,
    pub height: Real,
    pub hole: Real,
    pub hole_slot: Real,
    pub hole_shape: Seq<char>,
    pub rotation: Real,
    pub layer_code: i32,
    pub shape: Seq<char>,
    pub path: Option<Seq<PathStep>>,
    pub mask_units: Option<Real>,
}

pub open spec fn path_view(path: Option<Vec<PathStep>>) -> Option<Seq<PathStep>> {
    match path {
        Some(steps) => Some(steps@),
        None => None,
    }
}

impl View for PadSketch {
    type V = PadModel;

    open spec fn view(&self) -> PadModel {
        PadModel {
            designator: self.designator@,
            x: self.x,
            y: self.y,
            width: self.width,
            height: self.height,
            hole: self.hole,
            hole_slot: self.hole_slot,
            hole_shape: self.hole_shape@,
            rotation: self.rotation,
            layer_code: self.layer_code,
            shape: self.shape@,
            path: path_view(self.path),
            mask_units: self.mask_units,
        }
    }
}

/// The designator of a pad: what its row says, or the number `next` where that is blank.
pub open spec fn designator_in(row: Seq<Cell>, next: nat) -> Seq<char> {
    let said = text_or(row, 5, ""@);
    if trim(said).len() == 0 {
        decimal(next)
    } else {
        said
    }
}

/// The number for the next pad without a designator, after that of `row`.
pub open spec fn next_after(row: Seq<Cell>, next: nat) -> nat {
    if trim(text_or(row, 5, ""@)).len() == 0 {
        next + 1
    } else {
        next
    }
}

/// The rotation of a pad: in one place of its row or, where that is not a
/// number, in another.
pub open spec fn rotation_in(row: Seq<Cell>) -> Real {
    match number_in(row, 8) {
        Some(number) => if number.value.spec_is_nan() {
            real_in(row, 14, zero())
        } else {
            number.value
        },
        None => real_in(row, 14, zero()),
    }
}

/// The items of the list in place `i` of a row.
pub open spec fn list_in(row: Seq<Cell>, i: int) -> Option<Seq<Cell>> {
    if 0 <= i < row.len() {
        items_of(row[i])
    } else {
        None
    }
}

/// The hole of a pad: its shape, its size across, and its size along.
pub open spec fn hole_in(row: Seq<Cell>) -> (Seq<char>, Real, Real) {
    match list_in(row, 9) {
        Some(items) => {
            let shape = text_or(items, 0, "ROUND"@);
            let first = real_in(items, 1, zero());
            let second = real_in(items, 2, first);
            if same_but_case(trim(shape), "SLOT"@) {
                (shape, first.spec_smaller(second), first.spec_larger(second))
            } else {
                (shape, first, second)
            }
        },
        None => ("ROUND"@, real_in(row, 9, zero()), real_in(row, 9, zero())),
    }
}

pub open spec fn ten() -> Real {
    Real { bits: TEN_BITS }
}

/// The outline of a pad: its shape, its sides, and its path where it has one.
pub open spec fn outline_in(row: Seq<Cell>) -> (Seq<char>, Real, Real, Option<Seq<PathStep>>) {
    match list_in(row, 10) {
        Some(items) => {
            let shape = text_or(items, 0, "ROUND"@);
            if same_but_case(shape, "POLY"@) {
                (
                    shape,
                    ten(),
                    ten(),
                    if items.len() > 1 {
                        Some(path_of(items[1]))
                    } else {
                        None
                    },
                )
            } else {
                let width = real_in(items, 1, ten());
                (shape, width, real_in(items, 2, width), None)
            }
        },
        None => ("ROUND"@, ten(), ten(), None),
    }
}

/// The number in place `i` of a row, where it is more than zero.
pub open spec fn positive_in(row: Seq<Cell>, i: int) -> Option<Real> {
    match number_in(row, i) {
        Some(number) => if zero().lt(number.value) {
            Some(number.value)
        } else {
            None
        },
        None => None,
    }
}

/// The pad that a row says, where `next` is the number for the next pad without
/// a designator.
pub open spec fn pad_in(row: Seq<Cell>, next: nat) -> PadModel {
    let (hole_shape, hole, hole_slot) = hole_in(row);
    let (shape, width, height, path) = outline_in(row);
    PadModel {
        designator: designator_in(row, next),
        x: real_in(row, 6, zero()),
        y: real_in(row, 7, zero()),
        width,
        height,
        hole: hole.spec_larger(zero()),
        hole_slot: hole_slot.spec_larger(hole),
        hole_shape,
        rotation: rotation_in(row),
        layer_code: whole_in(row, 4, 1),
        shape,
        path,
        mask_units: match positive_in(row, 17) {
            Some(units) => Some(units),
            None => positive_in(row, 18),
        },
    }
}

fn row_positive(row: &Vec<Cell>, i: usize) -> (r: Option<Real>)
    ensures
        r == positive_in(row@, i as int),
{
    match number_at(row, i) {
        Some(number) => if Real::new(ZERO_BITS).is_less(number.value) {
            Some(number.value)
        } else {
            None
        },
        None => None,
    }
}

fn row_hole(row: &Vec<Cell>) -> (r: (String, Real, Real))
    ensures
        (r.0@, r.1, r.2) == hole_in(row@),
{
    if row.len() > 9 {
        if let Cell::List(items) = &row[9] {
            let shape = row_text_or(items, 0, "ROUND");
            let first = row_real(items, 1, Real::new(ZERO_BITS));
            let second = row_real(items, 2, first);
            let bare = trimmed(shape.as_str());
            return if same_text_but_case(bare.as_str(), "SLOT") {
                (shape, first.smaller(second), first.larger(second))
            } else {
                (shape, first, second)
            };
        }
    }
    let hole = row_real(row, 9, Real::new(ZERO_BITS));
    ("ROUND".to_owned(), hole, hole)
}

fn row_outline(row: &Vec<Cell>) -> (r: (String, Real, Real, Option<Vec<PathStep>>))
    ensures
        (r.0@, r.1, r.2, path_view(r.3)) == outline_in(row@),
{
    if row.len() > 10 {
        if let Cell::List(items) = &row[10] {
            let shape = row_text_or(items, 0, "ROUND");
            if same_text_but_case(shape.as_str(), "POLY") {
                let path = if items.len() > 1 {
                    Some(parse_path_steps(&items[1]))
                } else {
                    None
                };
                return (shape, Real::new(TEN_BITS), Real::new(TEN_BITS), path);
            }
            let width = row_real(items, 1, Real::new(TEN_BITS));
            let height = row_real(items, 2, width);
            return (shape, width, height, None);
        }
    }
    ("ROUND".to_owned(), Real::new(TEN_BITS), Real::new(TEN_BITS), None)
}

fn row_rotation(row: &Vec<Cell>) -> (r: Real)
    ensures
        r == rotation_in(row@),
{
    match number_at(row, 8) {
        Some(number) => if number.value.is_nan() {
            row_real(row, 14, Real::new(ZERO_BITS))
        } else {
            number.value
        },
        None => row_real(row, 14, Real::new(ZERO_BITS)),
    }
}

/// Reads the pad that a row says. `next` is the number for the next pad without
/// a designator, and comes back with the pad.
pub fn read_pad(row: &Vec<Cell>, next: u128) -> (r: (PadSketch, u128))
    requires
        next < u128::MAX,
    ensures
        r.0@ == pad_in(row@, next as nat),
        r.1 == next_after(row@, next as nat),
{
    let said = row_string(row, 5);
    let bare = trimmed(said.as_str());
    let blank = bare.as_str().is_empty();
    let designator = if blank {
        decimal_text(next)
    } else {
        said
    };
    let (hole_shape, hole, hole_slot) = row_hole(row);
    let (shape, width, height, path) = row_outline(row);
    let mask_units = match row_positive(row, 17) {
        Some(units) => Some(units),
        None => row_positive(row, 18),
    };
    let pad = PadSketch {
        designator,
        x: row_real(row, 6, Real::new(ZERO_BITS)),
        y: row_real(row, 7, Real::new(ZERO_BITS)),
        width,
        height,
        hole: hole.larger(Real::new(ZERO_BITS)),
        hole_slot: hole_slot.larger(hole),
        hole_shape,
        rotation: row_rotation(row),
        layer_code: row_i32(row, 4, 1),
        shape,
        path,
        mask_units,
    };
    assert(pad@ =~= pad_in(row@, next as nat));
    let after: u128 = if blank {
        next + 1
    } else {
        next
    };
    (pad, after)
}

// Lines and areas

/// What a line or an area is drawn for.
#[derive(Debug, Clone, Copy, PartialEq, Eq, Structural)]
pub enum Role {
    /// To say how far the body of the component reaches.
    Body,
    /// To be drawn along.
    Stroke,
    /// To be filled.
    Fill,
}

/// A line or an area.
#[derive(Debug)]
pub enum Figure {
    /// A path, which counts if it has at least so many points.
    Path { steps: Vec<PathStep>, least: usize },
    Circle(Circle),
    /// A line from point to point.
    Segment { x1: Real, y1: Real, x2: Real, y2: Real },
    /// A box with two opposite corners.
    Frame { x1: Real, y1: Real, x2: Real, y2: Real },
    /// A part of a circle, between two angles.
    Arc { circle: Circle, start: Real, end: Real },
}

/// What a [`Figure`] holds.
#[verifier::ext_equal]
pub enum FigureModel {
    Path { steps: Seq<PathStep>, least: nat },
    Circle(Circle),
    Segment { x1: Real, y1: Real, x2: Real, y2: Real },
    Frame { x1: Real, y1: Real, x2: Real, y2: Real },
    Arc { circle: Circle, start: Real, end: Real },
}

impl View for Figure {
    type V = FigureModel;

    open spec fn view(&self) -> FigureModel {
        match *self {
            Figure::Path { steps, least } => FigureModel::Path { steps: steps@, least: least as nat },
            Figure::Circle(circle) => FigureModel::Circle(circle),
            Figure::Segment { x1, y1, x2, y2 } => FigureModel::Segment { x1, y1, x2, y2 },
            Figure::Frame { x1, y1, x2, y2 } => FigureModel::Frame { x1, y1, x2, y2 },
            Figure::Arc { circle, start, end } => FigureModel::Arc { circle, start, end },
        }
    }
}

/// A figure on a layer, with the width of its line.
#[derive(Debug)]
pub struct Draft {
    pub role: Role,
    pub layer_code: i32,
    pub width: Real,
    pub figure: Figure,
}

/// What a [`Draft`] holds.
#[verifier::ext_equal]
pub struct DraftModel {
    pub role: Role,
    pub layer_code: i32,
    pub width: Real,
    pub figure: FigureModel,
}

impl View for Draft {
    type V = DraftModel;

    open spec fn view(&self) -> DraftModel {
        DraftModel {
            role: self.role,
            layer_code: self.layer_code,
            width: self.width,
            figure: self.figure@,
        }
    }
}

pub open spec fn draft_views(drafts: Seq<Draft>) -> Seq<DraftModel> {
    drafts.map_values(|draft: Draft| draft@)
}

/// What a figure on a layer is drawn for, if it is one that is drawn as `drawn`.
pub open spec fn role_on(layer_code: i32, drawn: Role) -> Option<Role> {
    if is_body(layer_code) {
        Some(Role::Body)
    } else if is_overlay(layer_code) {
        Some(drawn)
    } else {
        None
    }
}

fn layer_role(layer_code: i32, drawn: Role) -> (r: Option<Role>)
    ensures
        r == role_on(layer_code, drawn),
{
    if is_component_body_layer(layer_code) {
        Some(Role::Body)
    } else if is_overlay_layer(layer_code) {
        Some(drawn)
    } else {
        None
    }
}

/// The drafts that a figure comes to, on the layer of its row.
pub open spec fn drafts_for(row: Seq<Cell>, drawn: Role, width: Real, figure: FigureModel) -> Seq<
    DraftModel,
> {
    let layer_code = whole_in(row, 4, (-1) as i32);
    match role_on(layer_code, drawn) {
        Some(role) => seq![DraftModel { role, layer_code, width, figure }],
        None => Seq::empty(),
    }
}

/// The figure that a list says: a circle, or else a path.
pub open spec fn figure_of(shape: Cell, least: nat) -> FigureModel {
    match circle_of(shape) {
        Some(circle) => FigureModel::Circle(circle),
        None => FigureModel::Path { steps: path_of(shape), least },
    }
}

fn read_figure(shape: &Cell, least: usize) -> (r: Figure)
    ensures
        r@ == figure_of(*shape, least as nat),
{
    match try_parse_circle_shape(shape) {
        Some(circle) => Figure::Circle(circle),
        None => Figure::Path { steps: parse_path_steps(shape), least },
    }
}

pub open spec fn six() -> Real {
    Real { bits: SIX_BITS }
}

/// The width of the line that a row draws with.
pub open spec fn stroke_in(row: Seq<Cell>) -> Real {
    real_in(row, 5, six())
}

/// What a row `POLY` draws.
pub open spec fn poly_drafts(row: Seq<Cell>) -> Seq<DraftModel> {
    if row.len() > 6 {
        drafts_for(row, Role::Stroke, stroke_in(row), figure_of(row[6], 2))
    } else {
        Seq::empty()
    }
}

/// The shapes that a row `FILL` fills: a list of lists, or one list.
pub open spec fn fill_shapes(shape: Cell) -> Seq<Cell> {
    match items_of(shape) {
        Some(items) => if items.len() > 0 && items[0] is List {
            items
        } else {
            seq![shape]
        },
        None => Seq::empty(),
    }
}

/// What the first `n` of `shapes` come to.
pub open spec fn shape_drafts(row: Seq<Cell>, shapes: Seq<Cell>, n: int) -> Seq<DraftModel>
    decreases n,
{
    if n <= 0 {
        Seq::empty()
    } else {
        shape_drafts(row, shapes, n - 1) + drafts_for(
            row,
            Role::Fill,
            real_in(row, 5, zero()),
            figure_of(shapes[n - 1], 3),
        )
    }
}

/// What a row `FILL` draws.
pub open spec fn fill_drafts(row: Seq<Cell>) -> Seq<DraftModel> {
    if row.len() > 7 {
        let shapes = fill_shapes(row[7]);
        shape_drafts(row, shapes, shapes.len() as int)
    } else {
        Seq::empty()
    }
}

/// What a row `TRACK` draws.
pub open spec fn track_drafts(row: Seq<Cell>) -> Seq<DraftModel> {
    drafts_for(
        row,
        Role::Stroke,
        stroke_in(row),
        FigureModel::Segment {
            x1: real_in(row, 6, zero()),
            y1: real_in(row, 7, zero()),
            x2: real_in(row, 8, zero()),
            y2: real_in(row, 9, zero()),
        },
    )
}

/// What a row `RECT` draws.
pub open spec fn frame_drafts(row: Seq<Cell>) -> Seq<DraftModel> {
    let x1 = real_in(row, 6, zero());
    let y1 = real_in(row, 7, zero());
    drafts_for(
        row,
        Role::Stroke,
        stroke_in(row),
        FigureModel::Frame { x1, y1, x2: real_in(row, 8, x1), y2: real_in(row, 9, y1) },
    )
}

/// The circle that a row `CIRCLE` or `ARC` is about.
pub open spec fn circle_in(row: Seq<Cell>) -> Circle {
    Circle {
        cx: real_in(row, 6, zero()),
        cy: real_in(row, 7, zero()),
        radius: real_in(row, 8, zero()).spec_abs(),
    }
}

/// Whether a radius is too small for a circle or an arc. What is not a number
/// is not.
pub open spec fn is_point(radius: Real) -> bool {
    radius.le(Real { bits: crate::reals::MILLIONTH_BITS })
}

/// What a row `CIRCLE` draws.
pub open spec fn circle_drafts(row: Seq<Cell>) -> Seq<DraftModel> {
    if is_point(circle_in(row).radius) {
        Seq::empty()
    } else {
        drafts_for(row, Role::Stroke, stroke_in(row), FigureModel::Circle(circle_in(row)))
    }
}

/// What a row `ARC` draws.
pub open spec fn arc_drafts(row: Seq<Cell>) -> Seq<DraftModel> {
    if is_point(circle_in(row).radius) {
        Seq::empty()
    } else {
        drafts_for(
            row,
            Role::Stroke,
            stroke_in(row),
            FigureModel::Arc {
                circle: circle_in(row),
                start: real_in(row, 9, zero()),
                end: real_in(row, 10, zero()),
            },
        )
    }
}

/// The word that a row starts with.
pub open spec fn row_kind(row: Seq<Cell>) -> Option<Seq<char>> {
    if row.len() > 0 {
        match row[0] {
            Cell::Text { text, number } => Some(upper_text(trim(text@))),
            _ => None,
        }
    } else {
        None
    }
}

/// The lines and areas that a row draws.
pub open spec fn drafts_in(row: Seq<Cell>) -> Seq<DraftModel> {
    match row_kind(row) {
        Some(kind) => if kind == "POLY"@ {
            poly_drafts(row)
        } else if kind == "FILL"@ {
            fill_drafts(row)
        } else if kind == "TRACK"@ {
            track_drafts(row)
        } else if kind == "RECT"@ {
            frame_drafts(row)
        } else if kind == "CIRCLE"@ {
            circle_drafts(row)
        } else if kind == "ARC"@ {
            arc_drafts(row)
        } else {
            Seq::empty()
        },
        None => Seq::empty(),
    }
}

/// Adds a figure to the drafts, on the layer of its row.
fn push_draft(drafts: &mut Vec<Draft>, row: &Vec<Cell>, drawn: Role, width: Real, figure: Figure)
    ensures
        draft_views(final(drafts)@) == draft_views(old(drafts)@) + drafts_for(
            row@,
            drawn,
            width,
            figure@,
        ),
{
    let layer_code: i32 = row_i32(row, 4, -1);
    if let Some(role) = layer_role(layer_code, drawn) {
        drafts.push(Draft { role, layer_code, width, figure });
    }
    assert(draft_views(drafts@) =~= draft_views(old(drafts)@) + drafts_for(
        row@,
        drawn,
        width,
        figure@,
    ));
}

fn row_circle(row: &Vec<Cell>) -> (r: Circle)
    ensures
        r == circle_in(row@),
{
    Circle {
        cx: row_real(row, 6, Real::new(ZERO_BITS)),
        cy: row_real(row, 7, Real::new(ZERO_BITS)),
        radius: row_real(row, 8, Real::new(ZERO_BITS)).abs(),
    }
}

fn push_fill(drafts: &mut Vec<Draft>, row: &Vec<Cell>)
    requires
        row@.len() > 7,
    ensures
        draft_views(final(drafts)@) == draft_views(old(drafts)@) + fill_drafts(row@),
{
    let width = row_real(row, 5, Real::new(ZERO_BITS));
    let ghost shapes = fill_shapes(row@[7]);
    if let Cell::List(items) = &row[7] {
        let nested = if items.len() > 0 {
            match &items[0] {
                Cell::List(_) => true,
                _ => false,
            }
        } else {
            false
        };
        if nested {
            let mut i: usize = 0;
            assert(draft_views(drafts@) =~= draft_views(old(drafts)@) + shape_drafts(
                row@,
                shapes,
                0,
            ));
            while i < items.len()
                invariant
                    i <= items@.len(),
                    items@ == shapes,
                    width == real_in(row@, 5, zero()),
                    draft_views(drafts@) == draft_views(old(drafts)@) + shape_drafts(
                        row@,
                        shapes,
                        i as int,
                    ),
                decreases items.len() - i,
            {
                let figure = read_figure(&items[i], 3);
                push_draft(drafts, row, Role::Fill, width, figure);
                i += 1;
                assert(draft_views(drafts@) =~= draft_views(old(drafts)@) + shape_drafts(
                    row@,
                    shapes,
                    i as int,
                ));
            }
        } else {
            let figure = read_figure(&row[7], 3);
            push_draft(drafts, row, Role::Fill, width, figure);
            proof {
                reveal_with_fuel(shape_drafts, 2);
                assert(shapes =~= seq![row@[7]]);
                assert(draft_views(drafts@) =~= draft_views(old(drafts)@) + fill_drafts(row@));
            }
        }
    } else {
        assert(draft_views(drafts@) =~= draft_views(old(drafts)@) + fill_drafts(row@));
    }
}

/// Adds what a row draws, under the word that it starts with.
fn push_drafts(drafts: &mut Vec<Draft>, row: &Vec<Cell>, kind: &str)
    requires
        row_kind(row@) == Some(kind@),
    ensures
        draft_views(final(drafts)@) == draft_views(old(drafts)@) + drafts_in(row@),
{
    let ghost before = draft_views(drafts@);
    let stroke = row_real(row, 5, Real::new(SIX_BITS));
    if same_text(kind, "POLY") {
        if row.len() > 6 {
            let figure = read_figure(&row[6], 2);
            push_draft(drafts, row, Role::Stroke, stroke, figure);
        } else {
            assert(before + drafts_in(row@) =~= before);
        }
        return;
    }
    if same_text(kind, "FILL") {
        if row.len() > 7 {
            push_fill(drafts, row);
        } else {
            assert(before + drafts_in(row@) =~= before);
        }
        return;
    }
    if same_text(kind, "TRACK") {
        let figure = Figure::Segment {
            x1: row_real(row, 6, Real::new(ZERO_BITS)),
            y1: row_real(row, 7, Real::new(ZERO_BITS)),
            x2: row_real(row, 8, Real::new(ZERO_BITS)),
            y2: row_real(row, 9, Real::new(ZERO_BITS)),
        };
        push_draft(drafts, row, Role::Stroke, stroke, figure);
        return;
    }
    if same_text(kind, "RECT") {
        let x1 = row_real(row, 6, Real::new(ZERO_BITS));
        let y1 = row_real(row, 7, Real::new(ZERO_BITS));
        let figure = Figure::Frame { x1, y1, x2: row_real(row, 8, x1), y2: row_real(row, 9, y1) };
        push_draft(drafts, row, Role::Stroke, stroke, figure);
        return;
    }
    let circle = row_circle(row);
    let tiny = circle.radius.is_at_most(Real::new(crate::reals::MILLIONTH_BITS));
    if same_text(kind, "CIRCLE") {
        if !tiny {
            push_draft(drafts, row, Role::Stroke, stroke, Figure::Circle(circle));
        } else {
            assert(before + drafts_in(row@) =~= before);
        }
        return;
    }
    if same_text(kind, "ARC") {
        if !tiny {
            let figure = Figure::Arc {
                circle,
                start: row_real(row, 9, Real::new(ZERO_BITS)),
                end: row_real(row, 10, Real::new(ZERO_BITS)),
            };
            push_draft(drafts, row, Role::Stroke, stroke, figure);
        } else {
            assert(before + drafts_in(row@) =~= before);
        }
        return;
    }
    assert(before + drafts_in(row@) =~= before);
}

/// What the rows of a footprint draw.
#[derive(Debug)]
pub struct Sketch {
    pub pads: Vec<PadSketch>,
    pub drafts: Vec<Draft>,
}

pub open spec fn pad_views(pads: Seq<PadSketch>) -> Seq<PadModel> {
    pads.map_values(|pad: PadSketch| pad@)
}

/// Whether a row says a pad.
pub open spec fn is_pad_row(row: Seq<Cell>) -> bool {
    row_kind(row) == Some("PAD"@)
}

/// The pads that the first `n` of `rows` say, and the number for the next that
/// has no designator.
pub open spec fn sketched_pads(rows: Seq<Seq<Cell>>, n: int) -> (Seq<PadModel>, nat)
    decreases n,
{
    if n <= 0 {
        (Seq::empty(), 1)
    } else {
        let (pads, next) = sketched_pads(rows, n - 1);
        if is_pad_row(rows[n - 1]) {
            (pads.push(pad_in(rows[n - 1], next)), next_after(rows[n - 1], next))
        } else {
            (pads, next)
        }
    }
}

/// The lines and areas that the first `n` of `rows` draw.
pub open spec fn sketched_drafts(rows: Seq<Seq<Cell>>, n: int) -> Seq<DraftModel>
    decreases n,
{
    if n <= 0 {
        Seq::empty()
    } else {
        sketched_drafts(rows, n - 1) + drafts_in(rows[n - 1])
    }
}

/// Reads what the rows of a footprint draw.
pub fn read_sketch(rows: &Vec<Vec<Cell>>) -> (r: Sketch)
    ensures
        pad_views(r.pads@) == sketched_pads(
            crate::cells::row_views(rows@),
            rows@.len() as int,
        ).0,
        draft_views(r.drafts@) == sketched_drafts(
            crate::cells::row_views(rows@),
            rows@.len() as int,
        ),
{
    let ghost all = crate::cells::row_views(rows@);
    let mut pads: Vec<PadSketch> = Vec::new();
    let mut drafts: Vec<Draft> = Vec::new();
    let mut next: u128 = 1;
    let mut i: usize = 0;
    assert(pad_views(pads@) =~= Seq::<PadModel>::empty());
    assert(draft_views(drafts@) =~= Seq::<DraftModel>::empty());
    while i < rows.len()
        invariant
            i <= rows@.len(),
            all == crate::cells::row_views(rows@),
            next <= i + 1,
            sketched_pads(all, i as int) == (pad_views(pads@), next as nat),
            draft_views(drafts@) == sketched_drafts(all, i as int),
        decreases rows.len() - i,
    {
        let row = &rows[i];
        assert(all[i as int] == row@);
        if row.len() > 0 {
            if let Cell::Text { text, number: _ } = &row[0] {
                let bare = trimmed(text.as_str());
                let kind = uppercased(bare.as_str());
                if same_text(kind.as_str(), "PAD") {
                    let ghost before = pad_views(pads@);
                    let (pad, after) = read_pad(row, next);
                    pads.push(pad);
                    next = after;
                    proof {
                        assert(pad_views(pads@) =~= before.push(pad@));
                        lemma_pad_draws_nothing(row@);
                        assert(draft_views(drafts@) + drafts_in(row@) =~= draft_views(drafts@));
                    }
                } else {
                    push_drafts(&mut drafts, row, kind.as_str());
                }
            } else {
                assert(draft_views(drafts@) + drafts_in(row@) =~= draft_views(drafts@));
            }
        } else {
            assert(draft_views(drafts@) + drafts_in(row@) =~= draft_views(drafts@));
        }
        i += 1;
    }
    Sketch { pads, drafts }
}

proof fn lemma_pad_draws_nothing(row: Seq<Cell>)
    requires
        is_pad_row(row),
    ensures
        drafts_in(row) == Seq::<DraftModel>::empty(),
{
    reveal_strlit("PAD");
    reveal_strlit("POLY");
    reveal_strlit("FILL");
    reveal_strlit("TRACK");
    reveal_strlit("RECT");
    reveal_strlit("CIRCLE");
    reveal_strlit("ARC");
    assert("PAD"@.len() == 3 && "POLY"@.len() == 4 && "FILL"@.len() == 4);
    assert("TRACK"@.len() == 5 && "RECT"@.len() == 4 && "CIRCLE"@.len() == 6);
    assert("PAD"@[0] != "ARC"@[0]);
}

} // verus!
