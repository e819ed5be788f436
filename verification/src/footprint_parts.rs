//! Putting a footprint together: from what its rows draw and how that measures
//! to the primitives of a library.

use vstd::prelude::*;
use crate::footprint::{
    graphic_layer, hole_type, map_graphic_layer, map_pad_hole_type, map_pad_layer, map_pad_shape,
    mask_layers, mask_region_layers, pad_layer, pad_shape, ten, Draft, Figure, PadSketch, Role,
};
use crate::footprint_text::{pad_shape_region_params, region_params};
use crate::params::{pair_views, Pair};
use crate::pcblib::{
    CoordPoint, PcbArc, PcbComponent, PcbComponentBody, PcbExtendedPrimitiveInfo, PcbLibrary,
    PcbModel, PcbPad, PcbRegion, PcbTrack, LAYER_MECHANICAL_1, LAYER_MECHANICAL_9, LAYER_MULTI,
    LAYER_TOP_OVERLAY, PAD_HOLE_ROUND, PAD_HOLE_SLOT, PAD_SHAPE_ROUND,
    PAD_SHAPE_ROUNDED_RECTANGLE,
};
use crate::reals::{zero, Real, FULL_TURN_BITS, ONE_BITS, TEN_BITS, ZERO_BITS};
use crate::schlib::optional;
use crate::text::{same_but_case, same_text_but_case};

verus! {

/// How far the corners of a pad are rounded, in percent.
pub const CORNER_RADIUS_PERCENTAGE: u8 = 25;

/// How far the mask is open around a pad.
pub const SOLDER_MASK_EXPANSION_RAW: i32 = 19_690;

/// The size of the pad that stands for one of another shape.
pub const HOTSPOT_RAW: i32 = 23_792;

/// The same in the units of a drawing: 2.3792
pub const HOTSPOT_BITS: u64 = 0x4003_089a_0275_2546;

/// The width of a line that is drawn without one.
pub const GRAPHIC_WIDTH_RAW: i32 = 19_685;

/// The least height of a body.
pub const BODY_HEIGHT_RAW: i32 = 78_740;

// Bounds

/// A point of a drawing.
#[derive(Debug, Clone, Copy, PartialEq, Eq, Structural)]
pub struct RawPoint {
    pub x: Real,
    pub y: Real,
}

/// How far a drawing reaches.
#[derive(Debug, Clone, Copy, PartialEq, Eq, Structural)]
pub struct Extents {
    pub min_x: Real,
    pub max_x: Real,
    pub min_y: Real,
    pub max_y: Real,
}

/// How far points reach.
pub open spec fn extents_of(points: Seq<RawPoint>) -> Option<Extents>
    decreases points.len(),
{
    if points.len() == 0 {
        None
    } else {
        let p = points.last();
        match extents_of(points.drop_last()) {
            Some(e) => Some(
                Extents {
                    min_x: e.min_x.spec_smaller(p.x),
                    max_x: e.max_x.spec_larger(p.x),
                    min_y: e.min_y.spec_smaller(p.y),
                    max_y: e.max_y.spec_larger(p.y),
                },
            ),
            None => Some(Extents { min_x: p.x, max_x: p.x, min_y: p.y, max_y: p.y }),
        }
    }
}

/// Points whose extents are kept as they come.
#[derive(Debug, Clone, Copy)]
pub struct Bounds {
    pub extents: Option<Extents>,
}

impl Bounds {
    pub fn new() -> (r: Self)
        ensures
            r.extents == extents_of(Seq::empty()),
    {
        Bounds { extents: None }
    }

    /// Takes in more points.
    pub fn update_from_raw_points(&mut self, points: &Vec<RawPoint>)
        ensures
            forall|before: Seq<RawPoint>| #[trigger]
                extents_of(before) == old(self).extents ==> final(self).extents == extents_of(
                    before + points@,
                ),
    {
        let ghost start = self.extents;
        let mut i: usize = 0;
        assert forall|before: Seq<RawPoint>| #[trigger]
            extents_of(before) == start implies self.extents == extents_of(
            before + points@.take(0),
        ) by {
            assert(before + points@.take(0) =~= before);
        }
        while i < points.len()
            invariant
                i <= points@.len(),
                forall|before: Seq<RawPoint>| #[trigger]
                    extents_of(before) == start ==> self.extents == extents_of(
                        before + points@.take(i as int),
                    ),
            decreases points.len() - i,
        {
            let p = points[i];
            let ghost now = self.extents;
            let wider = match self.extents {
                Some(e) => Extents {
                    min_x: e.min_x.smaller(p.x),
                    max_x: e.max_x.larger(p.x),
                    min_y: e.min_y.smaller(p.y),
                    max_y: e.max_y.larger(p.y),
                },
                None => Extents { min_x: p.x, max_x: p.x, min_y: p.y, max_y: p.y },
            };
            self.extents = Some(wider);
            assert forall|before: Seq<RawPoint>| #[trigger]
                extents_of(before) == start implies self.extents == extents_of(
                before + points@.take(i + 1),
            ) by {
                let all = before + points@.take(i + 1);
                assert(all.drop_last() =~= before + points@.take(i as int));
                assert(all.last() == p);
                assert(now == extents_of(all.drop_last()));
            }
            i += 1;
        }
        assert(points@.take(i as int) =~= points@);
    }
}

/// Extents hold every point of a drawing whose coordinates are numbers.
pub proof fn law_extents_hold(points: Seq<RawPoint>, i: int)
    requires
        0 <= i < points.len(),
        forall|k: int|
            0 <= k < points.len() ==> !(#[trigger] points[k]).x.spec_is_nan()
                && !points[k].y.spec_is_nan(),
    ensures
        extents_of(points) matches Some(e) && e.min_x.le(points[i].x) && points[i].x.le(e.max_x)
            && e.min_y.le(points[i].y) && points[i].y.le(e.max_y),
    decreases points.len(),
{
    let init = points.drop_last();
    let p = points.last();
    assert(!p.x.spec_is_nan() && !p.y.spec_is_nan());
    assert forall|k: int| 0 <= k < init.len() implies !(#[trigger] init[k]).x.spec_is_nan()
        && !init[k].y.spec_is_nan() by {
        assert(init[k] == points[k]);
    }
    if init.len() > 0 {
        if i < init.len() {
            law_extents_hold(init, i);
            assert(init[i] == points[i]);
        } else {
            law_extents_hold(init, 0);
        }
    }
}

// Pads

/// How the path of a pad measures.
#[derive(Debug, Clone, Copy)]
pub struct PathMeasure {
    /// How many points it has.
    pub count: usize,
    /// Its width and height, where it has points.
    pub size: Option<(Real, Real)>,
    /// The rectangle with sides along the axes that it is, if it is one.
    pub rect: Option<PadRect>,
}

#[derive(Debug, Clone, Copy, PartialEq, Eq, Structural)]
pub struct PadRect {
    pub center_x: Real,
    pub center_y: Real,
    pub width: Real,
    pub height: Real,
}

/// A pad whose place and sides are settled.
#[derive(Debug)]
pub struct Pad {
    pub designator: String,
    pub x: Real,
    pub y: Real,
    pub width: Real,
    pub height: Real,
    pub hole: Real,
    pub hole_slot: Real,
    pub hole_shape: String,
    pub rotation: Real,
    pub layer_code: i32,
    pub shape: String,
    /// Whether its outline is that of its path.
    pub has_polygon: bool,
    /// How far the mask is open around that outline.
    pub mask_units: Real,
}

/// The sides of a pad, of which none is left that is not longer than zero.
pub open spec fn mended_sides(width: Real, height: Real) -> (Real, Real) {
    let w = if width.le(zero()) {
        ten()
    } else {
        width
    };
    (
        w,
        if height.le(zero()) {
            w
        } else {
            height
        },
    )
}

/// Whether a pad is `sketch`, with the place and sides that the measure of its
/// path gives.
pub open spec fn settles(sketch: PadSketch, measure: Option<PathMeasure>, pad: Pad) -> bool {
    let sized = match (sketch.path, measure) {
        (Some(_), Some(m)) => m.size,
        _ => None,
    };
    let rect = match (sized, measure) {
        (Some(_), Some(m)) => m.rect,
        _ => None,
    };
    let sides = match (rect, sized) {
        (Some(r), _) => (r.width, r.height),
        (None, Some(s)) => (sketch.width.spec_larger(s.0), sketch.height.spec_larger(s.1)),
        (None, None) => (sketch.width, sketch.height),
    };
    &&& pad.designator@ == sketch.designator@
    &&& (pad.x, pad.y) == match rect {
        Some(r) => (r.center_x, r.center_y),
        None => (sketch.x, sketch.y),
    }
    &&& (pad.width, pad.height) == mended_sides(sides.0, sides.1)
    &&& pad.hole == sketch.hole
    &&& pad.hole_slot == sketch.hole_slot
    &&& pad.hole_shape@ == sketch.hole_shape@
    &&& pad.rotation == sketch.rotation
    &&& pad.layer_code == sketch.layer_code
    &&& pad.shape@ == if rect is Some {
        "RECT"@
    } else {
        sketch.shape@
    }
    &&& pad.has_polygon == (sized is Some && rect is None && measure->0.count >= 3)
    &&& pad.mask_units == match sketch.mask_units {
        Some(units) => units,
        None => Real { bits: HOTSPOT_BITS },
    }
}

/// Settles the place and the sides of a pad.
pub fn settle_pad(sketch: PadSketch, measure: Option<PathMeasure>) -> (pad: Pad)
    ensures
        settles(sketch, measure, pad),
{
    let mut x = sketch.x;
    let mut y = sketch.y;
    let mut width = sketch.width;
    let mut height = sketch.height;
    let mut has_polygon = false;
    let mut is_rect = false;
    if let (Some(_), Some(m)) = (&sketch.path, measure) {
        if let Some(size) = m.size {
            match m.rect {
                Some(rect) => {
                    is_rect = true;
                    x = rect.center_x;
                    y = rect.center_y;
                    width = rect.width;
                    height = rect.height;
                },
                None => {
                    width = width.larger(size.0);
                    height = height.larger(size.1);
                    has_polygon = m.count >= 3;
                },
            }
        }
    }
    if width.is_at_most(Real::new(ZERO_BITS)) {
        width = Real::new(TEN_BITS);
    }
    if height.is_at_most(Real::new(ZERO_BITS)) {
        height = width;
    }
    Pad {
        designator: sketch.designator,
        x,
        y,
        width,
        height,
        hole: sketch.hole,
        hole_slot: sketch.hole_slot,
        hole_shape: sketch.hole_shape,
        rotation: sketch.rotation,
        layer_code: sketch.layer_code,
        shape: if is_rect {
            "RECT".to_owned()
        } else {
            sketch.shape
        },
        has_polygon,
        mask_units: match sketch.mask_units {
            Some(units) => units,
            None => Real::new(HOTSPOT_BITS),
        },
    }
}

/// How a pad measures.
#[derive(Debug)]
pub struct PadGeometry {
    pub has_hole: bool,
    pub equal_sides: bool,
    /// Its rotation, within one turn.
    pub rotation: Real,
    /// The rotation of a slot along its width, and of one along its height.
    pub slot_level: Real,
    pub slot_upright: Real,
    pub location: CoordPoint,
    pub size: CoordPoint,
    pub hole_size_raw: i32,
    pub hole_slot_raw: i32,
    /// Its four corners, one after the other.
    pub rectangle: Vec<CoordPoint>,
    /// Whether its corners can be rounded, and the points around it if they are.
    pub has_round_corners: bool,
    pub rounded: Vec<CoordPoint>,
    /// The points of its path.
    pub polygon: Vec<CoordPoint>,
    /// How far the mask is open around that, in words.
    pub mask_text: String,
    /// Points that it reaches to.
    pub corners: Vec<RawPoint>,
}

/// Whether a pad is of a shape of its own: its outline is drawn, and a small
/// round pad stands for it.
pub open spec fn is_custom(pad: Pad, g: PadGeometry) -> bool {
    !g.has_hole && same_but_case(pad.shape@, "POLY"@) && pad.has_polygon
}

fn has_custom_shape(pad: &Pad, g: &PadGeometry) -> (r: bool)
    ensures
        r == is_custom(*pad, *g),
{
    !g.has_hole && pad.has_polygon && same_text_but_case(pad.shape.as_str(), "POLY")
}

/// What differs from pad to pad.
pub struct PadPlan {
    pub designator: Seq<char>,
    pub location: CoordPoint,
    pub size: CoordPoint,
    pub hole_size_raw: i32,
    pub shape: u8,
    pub rotation: Real,
    pub is_plated: bool,
    pub layer: u8,
    pub solder_mask_expansion_raw: i32,
    pub hole_type: u8,
    pub hole_slot_length_raw: i32,
    pub hole_rotation: Real,
}

/// Whether a pad is as planned, and for the rest as all pads are.
pub open spec fn is_pad(pad: PcbPad, plan: PadPlan) -> bool {
    &&& pad.designator@ == plan.designator
    &&& pad == (PcbPad {
        designator: pad.designator,
        location: plan.location,
        size_top: plan.size,
        size_middle: plan.size,
        size_bottom: plan.size,
        hole_size_raw: plan.hole_size_raw,
        shape_top: plan.shape,
        shape_middle: plan.shape,
        shape_bottom: plan.shape,
        rotation: plan.rotation,
        is_plated: plan.is_plated,
        layer: plan.layer,
        is_locked: false,
        is_tenting_top: false,
        is_tenting_bottom: false,
        is_keepout: false,
        mode: 0,
        power_plane_connect_style: 0,
        relief_air_gap_raw: 0,
        relief_conductor_width_raw: 100_000,
        relief_entries: 4,
        power_plane_clearance_raw: 100_000,
        power_plane_relief_expansion_raw: 200_000,
        paste_mask_expansion_raw: 0,
        solder_mask_expansion_raw: plan.solder_mask_expansion_raw,
        drill_type: 0,
        jumper_id: 0,
        hole_type: plan.hole_type,
        hole_slot_length_raw: plan.hole_slot_length_raw,
        hole_rotation: plan.hole_rotation,
        corner_radius_percentage: CORNER_RADIUS_PERCENTAGE,
    })
}

/// Whether pads are as planned, one by one.
pub open spec fn are_pads(pads: Seq<PcbPad>, plans: Seq<PadPlan>) -> bool {
    &&& pads.len() == plans.len()
    &&& forall|i: int| 0 <= i < plans.len() ==> is_pad(#[trigger] pads[i], plans[i])
}

/// What a pad is to be. The long side of a slot is along that of its pad.
pub open spec fn pad_plan(pad: Pad, g: PadGeometry) -> PadPlan {
    let custom = is_custom(pad, g);
    let kind = hole_type(pad.hole_shape@);
    let rotation = if custom {
        zero()
    } else {
        g.rotation
    };
    PadPlan {
        designator: pad.designator@,
        location: g.location,
        size: if custom {
            CoordPoint { x: HOTSPOT_RAW, y: HOTSPOT_RAW }
        } else {
            g.size
        },
        hole_size_raw: g.hole_size_raw,
        shape: if custom {
            PAD_SHAPE_ROUND
        } else {
            pad_shape(pad.shape@, g.equal_sides)
        },
        rotation,
        is_plated: true,
        layer: pad_layer(pad.layer_code, g.has_hole),
        solder_mask_expansion_raw: if custom {
            0
        } else {
            SOLDER_MASK_EXPANSION_RAW
        },
        hole_type: kind,
        hole_slot_length_raw: g.hole_slot_raw,
        hole_rotation: if kind != PAD_HOLE_SLOT || custom {
            rotation
        } else if pad.width.lt(pad.height) {
            g.slot_upright
        } else {
            g.slot_level
        },
    }
}

fn make_pad(pad: &Pad, g: &PadGeometry) -> (r: PcbPad)
    ensures
        is_pad(r, pad_plan(*pad, *g)),
{
    let custom = has_custom_shape(pad, g);
    let kind: u8 = map_pad_hole_type(pad.hole_shape.as_str());
    let rotation = if custom {
        Real::new(ZERO_BITS)
    } else {
        g.rotation
    };
    let size = if custom {
        CoordPoint::new(HOTSPOT_RAW, HOTSPOT_RAW)
    } else {
        g.size
    };
    let shape: u8 = if custom {
        PAD_SHAPE_ROUND
    } else {
        map_pad_shape(pad.shape.as_str(), g.equal_sides)
    };
    PcbPad {
        designator: pad.designator.clone(),
        location: g.location,
        size_top: size,
        size_middle: size,
        size_bottom: size,
        hole_size_raw: g.hole_size_raw,
        shape_top: shape,
        shape_middle: shape,
        shape_bottom: shape,
        rotation,
        is_plated: true,
        layer: map_pad_layer(pad.layer_code, g.has_hole),
        is_locked: false,
        is_tenting_top: false,
        is_tenting_bottom: false,
        is_keepout: false,
        mode: 0,
        power_plane_connect_style: 0,
        relief_air_gap_raw: 0,
        relief_conductor_width_raw: 100_000,
        relief_entries: 4,
        power_plane_clearance_raw: 100_000,
        power_plane_relief_expansion_raw: 200_000,
        paste_mask_expansion_raw: 0,
        solder_mask_expansion_raw: if custom {
            0
        } else {
            SOLDER_MASK_EXPANSION_RAW
        },
        drill_type: 0,
        jumper_id: 0,
        hole_type: kind,
        hole_slot_length_raw: g.hole_slot_raw,
        hole_rotation: if kind != PAD_HOLE_SLOT || custom {
            rotation
        } else if pad.width.is_less(pad.height) {
            g.slot_upright
        } else {
            g.slot_level
        },
        corner_radius_percentage: CORNER_RADIUS_PERCENTAGE,
    }
}

/// Points with the first of them again at the end, unless it is there.
pub open spec fn closed(points: Seq<CoordPoint>) -> Seq<CoordPoint> {
    if points.len() > 0 && points[0] != points.last() {
        points.push(points[0])
    } else {
        points
    }
}

fn close_outline(points: &mut Vec<CoordPoint>)
    ensures
        final(points)@ == closed(old(points)@),
{
    let count: usize = points.len();
    if count > 0 {
        let first = points[0];
        let last = points[count - 1];
        if first != last {
            points.push(first);
        }
    }
}

fn copied(points: &Vec<CoordPoint>) -> (r: Vec<CoordPoint>)
    ensures
        r@ == points@,
{
    let mut r: Vec<CoordPoint> = Vec::new();
    let mut i: usize = 0;
    while i < points.len()
        invariant
            i <= points@.len(),
            r@ == points@.take(i as int),
        decreases points.len() - i,
    {
        r.push(points[i]);
        i += 1;
    }
    assert(r@ =~= points@);
    r
}

/// Points of which none is the same as the one before it.
pub open spec fn without_repeats(points: Seq<CoordPoint>) -> Seq<CoordPoint>
    decreases points.len(),
{
    if points.len() == 0 {
        Seq::empty()
    } else {
        let before = without_repeats(points.drop_last());
        if before.len() > 0 && before.last() == points.last() {
            before
        } else {
            before.push(points.last())
        }
    }
}

fn drop_repeats(points: &Vec<CoordPoint>) -> (r: Vec<CoordPoint>)
    ensures
        r@ == without_repeats(points@),
{
    let mut kept: Vec<CoordPoint> = Vec::new();
    let mut i: usize = 0;
    assert(kept@ =~= without_repeats(points@.take(0)));
    while i < points.len()
        invariant
            i <= points@.len(),
            kept@ == without_repeats(points@.take(i as int)),
        decreases points.len() - i,
    {
        assert(points@.take(i + 1).drop_last() =~= points@.take(i as int));
        let count: usize = kept.len();
        let again = count > 0 && kept[count - 1] == points[i];
        if !again {
            kept.push(points[i]);
        }
        i += 1;
    }
    assert(points@.take(i as int) =~= points@);
    kept
}

/// Points with the first of them again at the end.
pub open spec fn rounded_off(points: Seq<CoordPoint>) -> Seq<CoordPoint> {
    if points.len() > 0 {
        points.push(points[0])
    } else {
        points
    }
}

fn push_first(points: &mut Vec<CoordPoint>)
    ensures
        final(points)@ == rounded_off(old(points)@),
{
    if points.len() > 0 {
        let first = points[0];
        points.push(first);
    }
}

/// The view of an outline that may be missing.
pub open spec fn outline_view(outline: Option<Vec<CoordPoint>>) -> Option<Seq<CoordPoint>> {
    match outline {
        Some(points) => Some(points@),
        None => None,
    }
}

/// The outline of a pad as a rectangle, unless it has no size.
pub open spec fn rectangle_outline(pad: Pad, g: PadGeometry) -> Option<Seq<CoordPoint>> {
    if pad.width.le(zero()) || pad.height.le(zero()) {
        None
    } else {
        Some(rounded_off(g.rectangle@))
    }
}

/// The outline of a pad as a rectangle with round corners, unless it has no size.
pub open spec fn round_outline(pad: Pad, g: PadGeometry) -> Option<Seq<CoordPoint>> {
    if pad.width.le(zero()) || pad.height.le(zero()) {
        None
    } else if g.has_round_corners {
        Some(rounded_off(without_repeats(g.rounded@)))
    } else {
        rectangle_outline(pad, g)
    }
}

pub fn rectangular_pad_outline(pad: &Pad, g: &PadGeometry) -> (r: Option<Vec<CoordPoint>>)
    ensures
        outline_view(r) == rectangle_outline(*pad, *g),
{
    if pad.width.is_at_most(Real::new(ZERO_BITS)) || pad.height.is_at_most(Real::new(ZERO_BITS)) {
        return None;
    }
    let mut outline = copied(&g.rectangle);
    push_first(&mut outline);
    Some(outline)
}

pub fn rounded_rect_pad_outline(pad: &Pad, g: &PadGeometry) -> (r: Option<Vec<CoordPoint>>)
    ensures
        outline_view(r) == round_outline(*pad, *g),
{
    if pad.width.is_at_most(Real::new(ZERO_BITS)) || pad.height.is_at_most(Real::new(ZERO_BITS)) {
        return None;
    }
    if !g.has_round_corners {
        return rectangular_pad_outline(pad, g);
    }
    let mut outline = drop_repeats(&g.rounded);
    push_first(&mut outline);
    Some(outline)
}

/// The outline of a pad that is drawn beside it.
pub open spec fn pad_outline(pad: Pad, g: PadGeometry) -> Option<Seq<CoordPoint>> {
    if pad_shape(pad.shape@, g.equal_sides) == PAD_SHAPE_ROUNDED_RECTANGLE {
        round_outline(pad, g)
    } else if pad.has_polygon {
        if closed(g.polygon@).len() >= 4 {
            Some(closed(g.polygon@))
        } else {
            None
        }
    } else {
        rectangle_outline(pad, g)
    }
}

fn pad_outline_region(pad: &Pad, g: &PadGeometry) -> (r: Option<Vec<CoordPoint>>)
    ensures
        outline_view(r) == pad_outline(*pad, *g),
{
    if map_pad_shape(pad.shape.as_str(), g.equal_sides) == PAD_SHAPE_ROUNDED_RECTANGLE {
        return rounded_rect_pad_outline(pad, g);
    }
    if pad.has_polygon {
        let mut outline = copied(&g.polygon);
        close_outline(&mut outline);
        return if outline.len() >= 4 {
            Some(outline)
        } else {
            None
        };
    }
    rectangular_pad_outline(pad, g)
}

/// The outline of a pad is closed, and the one with round corners has no point
/// twice in a row before it closes.
pub proof fn law_pad_outline_closed(pad: Pad, g: PadGeometry)
    ensures
        pad_outline(pad, g) matches Some(outline) ==> outline.len() > 0 ==> outline[0]
            == outline.last(),
        forall|i: int|
            0 <= i < without_repeats(g.rounded@).len() - 1 ==> #[trigger] without_repeats(
                g.rounded@,
            )[i] != without_repeats(g.rounded@)[i + 1],
{
    lemma_without_repeats(g.rounded@);
}

proof fn lemma_without_repeats(points: Seq<CoordPoint>)
    ensures
        forall|i: int|
            0 <= i < without_repeats(points).len() - 1 ==> #[trigger] without_repeats(points)[i]
                != without_repeats(points)[i + 1],
    decreases points.len(),
{
    if points.len() > 0 {
        lemma_without_repeats(points.drop_last());
        let before = without_repeats(points.drop_last());
        let all = without_repeats(points);
        assert forall|i: int| 0 <= i < all.len() - 1 implies #[trigger] all[i] != all[i + 1] by {
            if i < before.len() - 1 {
                assert(before[i] == all[i]);
                assert(before[i + 1] == all[i + 1]);
            }
        }
    }
}

// Regions

/// What differs from region to region. One that shows a pad has a name and
/// parameters.
pub struct RegionPlan {
    pub layer: u8,
    pub outline: Seq<CoordPoint>,
    pub name: Option<Seq<char>>,
    pub params: Seq<Pair>,
}

/// Whether a region is as planned, and for the rest as all regions are.
pub open spec fn is_region(region: PcbRegion, plan: RegionPlan) -> bool {
    &&& region.outline@ == plan.outline
    &&& optional(region.name) == plan.name
    &&& pair_views(region.additional_params@) == plan.params
    &&& region == (PcbRegion {
        layer: plan.layer,
        outline: region.outline,
        kind: 0,
        net: None,
        unique_id: None,
        name: region.name,
        is_locked: false,
        is_tenting_top: false,
        is_tenting_bottom: false,
        is_keepout: false,
        additional_params: region.additional_params,
    })
}

/// Whether regions are as planned, one by one.
pub open spec fn are_regions(regions: Seq<PcbRegion>, plans: Seq<RegionPlan>) -> bool {
    &&& regions.len() == plans.len()
    &&& forall|i: int| 0 <= i < plans.len() ==> is_region(#[trigger] regions[i], plans[i])
}

/// A region that is an area of the drawing.
pub open spec fn area_plan(layer: u8, outline: Seq<CoordPoint>) -> RegionPlan {
    RegionPlan { layer, outline, name: None, params: Seq::empty() }
}

/// A region that shows a pad.
pub open spec fn shape_plan(layer: u8, layer_name: Seq<char>, outline: Seq<CoordPoint>) -> RegionPlan {
    RegionPlan { layer, outline, name: Some(" "@), params: region_params(layer_name) }
}

fn make_area(layer: u8, outline: Vec<CoordPoint>) -> (r: PcbRegion)
    ensures
        is_region(r, area_plan(layer, outline@)),
{
    let r = PcbRegion {
        layer,
        outline,
        kind: 0,
        net: None,
        unique_id: None,
        name: None,
        is_locked: false,
        is_tenting_top: false,
        is_tenting_bottom: false,
        is_keepout: false,
        additional_params: Vec::new(),
    };
    assert(pair_views(r.additional_params@) =~= Seq::<Pair>::empty());
    r
}

fn make_shape(layer: u8, layer_name: &str, outline: Vec<CoordPoint>) -> (r: PcbRegion)
    ensures
        is_region(r, shape_plan(layer, layer_name@, outline@)),
{
    PcbRegion {
        layer,
        outline,
        kind: 0,
        net: None,
        unique_id: None,
        name: Some(" ".to_owned()),
        is_locked: false,
        is_tenting_top: false,
        is_tenting_bottom: false,
        is_keepout: false,
        additional_params: pad_shape_region_params(layer_name),
    }
}

// What the pads come to

/// A pad, and how it measures.
pub type MeasuredPad = (Pad, PadGeometry);

pub open spec fn pad_plans(pads: Seq<MeasuredPad>) -> Seq<PadPlan> {
    pads.map_values(|p: MeasuredPad| pad_plan(p.0, p.1))
}

/// The regions that show the outlines of the first `n` pads.
pub open spec fn outline_plans(pads: Seq<MeasuredPad>, n: int) -> Seq<RegionPlan>
    decreases n,
{
    if n <= 0 {
        Seq::empty()
    } else {
        let before = outline_plans(pads, n - 1);
        match pad_outline(pads[n - 1].0, pads[n - 1].1) {
            Some(outline) => before.push(
                shape_plan(LAYER_MECHANICAL_9, "MECHANICAL9"@, outline),
            ),
            None => before,
        }
    }
}

/// The openings of the mask on `layers`, for a pad of the given outline: each with
/// how far it is open, in words.
pub open spec fn opening_plans(
    layers: Seq<(u8, Seq<char>)>,
    outline: Seq<CoordPoint>,
    text: Seq<char>,
) -> Seq<(RegionPlan, Seq<char>)> {
    layers.map_values(
        |layer: (u8, Seq<char>)| (shape_plan(layer.0, layer.1, outline), text),
    )
}

/// The openings of the mask for the first `n` pads. Only a pad of a shape of its
/// own has any.
pub open spec fn mask_plans(pads: Seq<MeasuredPad>, n: int) -> Seq<(RegionPlan, Seq<char>)>
    decreases n,
{
    if n <= 0 {
        Seq::empty()
    } else {
        let (pad, g) = pads[n - 1];
        let before = mask_plans(pads, n - 1);
        match pad_outline(pad, g) {
            Some(outline) => if is_custom(pad, g) {
                before + opening_plans(
                    mask_layers(pad.layer_code, g.has_hole),
                    outline,
                    g.mask_text@,
                )
            } else {
                before
            },
            None => before,
        }
    }
}

/// Whether regions and texts are as planned, one by one.
pub open spec fn are_openings(
    regions: Seq<PcbRegion>,
    texts: Seq<String>,
    plans: Seq<(RegionPlan, Seq<char>)>,
) -> bool {
    &&& regions.len() == plans.len()
    &&& texts.len() == plans.len()
    &&& forall|i: int|
        0 <= i < plans.len() ==> is_region(#[trigger] regions[i], plans[i].0) && texts[i]@
            == plans[i].1
}

fn make_pads(pads: &Vec<MeasuredPad>) -> (r: Vec<PcbPad>)
    ensures
        are_pads(r@, pad_plans(pads@)),
{
    let mut made: Vec<PcbPad> = Vec::new();
    let mut i: usize = 0;
    while i < pads.len()
        invariant
            i <= pads@.len(),
            made@.len() == i,
            forall|k: int| 0 <= k < i ==> is_pad(#[trigger] made@[k], pad_plans(pads@)[k]),
        decreases pads.len() - i,
    {
        made.push(make_pad(&pads[i].0, &pads[i].1));
        i += 1;
    }
    made
}

fn make_outlines(pads: &Vec<MeasuredPad>) -> (r: Vec<PcbRegion>)
    ensures
        are_regions(r@, outline_plans(pads@, pads@.len() as int)),
{
    let mut made: Vec<PcbRegion> = Vec::new();
    let mut i: usize = 0;
    while i < pads.len()
        invariant
            i <= pads@.len(),
            are_regions(made@, outline_plans(pads@, i as int)),
        decreases pads.len() - i,
    {
        if let Some(outline) = pad_outline_region(&pads[i].0, &pads[i].1) {
            made.push(make_shape(LAYER_MECHANICAL_9, "MECHANICAL9", outline));
        }
        i += 1;
    }
    made
}

fn push_openings(
    regions: &mut Vec<PcbRegion>,
    texts: &mut Vec<String>,
    layers: &Vec<(u8, &'static str)>,
    outline: &Vec<CoordPoint>,
    text: &str,
)
    ensures
        forall|plans: Seq<(RegionPlan, Seq<char>)>|
            are_openings(old(regions)@, old(texts)@, plans) ==> #[trigger] are_openings(
                final(regions)@,
                final(texts)@,
                plans + opening_plans(
                    crate::footprint::layer_views(layers@),
                    outline@,
                    text@,
                ),
            ),
{
    let ghost regions_before = regions@;
    let ghost texts_before = texts@;
    let ghost added = opening_plans(crate::footprint::layer_views(layers@), outline@, text@);
    let mut i: usize = 0;
    while i < layers.len()
        invariant
            i <= layers@.len(),
            added == opening_plans(crate::footprint::layer_views(layers@), outline@, text@),
            regions@.len() == regions_before.len() + i,
            texts@.len() == texts_before.len() + i,
            forall|k: int|
                0 <= k < regions_before.len() ==> #[trigger] regions@[k] == regions_before[k],
            forall|k: int| 0 <= k < texts_before.len() ==> #[trigger] texts@[k] == texts_before[k],
            forall|k: int|
                regions_before.len() <= k < regions@.len() ==> is_region(
                    #[trigger] regions@[k],
                    added[k - regions_before.len()].0,
                ),
            forall|k: int|
                texts_before.len() <= k < texts@.len() ==> (#[trigger] texts@[k])@ == text@,
        decreases layers.len() - i,
    {
        let (layer, layer_name) = layers[i];
        let opening = make_shape(layer, layer_name, copied(outline));
        assert(added[i as int].0 == shape_plan(layer, layer_name@, outline@));
        regions.push(opening);
        texts.push(text.to_owned());
        i += 1;
    }
    assert forall|plans: Seq<(RegionPlan, Seq<char>)>|
        are_openings(regions_before, texts_before, plans) implies #[trigger] are_openings(
        regions@,
        texts@,
        plans + added,
    ) by {
        let all = plans + added;
        assert forall|k: int| 0 <= k < all.len() implies is_region(#[trigger] regions@[k], all[k].0)
            && texts@[k]@ == all[k].1 by {
            if k < plans.len() {
                assert(regions@[k] == regions_before[k]);
                assert(texts@[k] == texts_before[k]);
            } else {
                assert(all[k] == added[k - plans.len()]);
            }
        }
    }
}

fn make_openings(pads: &Vec<MeasuredPad>) -> (r: (Vec<PcbRegion>, Vec<String>))
    ensures
        are_openings(r.0@, r.1@, mask_plans(pads@, pads@.len() as int)),
{
    let mut regions: Vec<PcbRegion> = Vec::new();
    let mut texts: Vec<String> = Vec::new();
    let mut i: usize = 0;
    while i < pads.len()
        invariant
            i <= pads@.len(),
            are_openings(regions@, texts@, mask_plans(pads@, i as int)),
        decreases pads.len() - i,
    {
        let pad = &pads[i].0;
        let g = &pads[i].1;
        if has_custom_shape(pad, g) {
            if let Some(outline) = pad_outline_region(pad, g) {
                let layers = mask_region_layers(pad.layer_code, g.has_hole);
                let ghost before = mask_plans(pads@, i as int);
                push_openings(&mut regions, &mut texts, &layers, &outline, g.mask_text.as_str());
                assert(are_openings(
                    regions@,
                    texts@,
                    before + opening_plans(
                        crate::footprint::layer_views(layers@),
                        outline@,
                        g.mask_text@,
                    ),
                ));
            }
        }
        i += 1;
    }
    (regions, texts)
}

// What the lines and areas come to

/// How a line or an area measures.
#[derive(Debug)]
pub struct Measure {
    /// Points that it reaches to.
    pub reach: Vec<RawPoint>,
    /// The points of a path, a line or a box.
    pub points: Vec<CoordPoint>,
    /// The center, the radius and the diameter of a circle, and points around it.
    pub center: CoordPoint,
    pub radius_raw: i32,
    pub diameter_raw: i32,
    pub ring: Vec<CoordPoint>,
    /// The angles of an arc, within one turn.
    pub start_angle: Real,
    pub end_angle: Real,
    /// The width of its line.
    pub width_raw: i32,
    /// Whether a circle in the documentation marks this one.
    pub is_marked: bool,
}

/// A line or an area, and how it measures.
pub type MeasuredDraft = (Draft, Measure);

/// Whether a figure counts: a path may have too few points.
pub open spec fn counts(draft: Draft, m: Measure) -> bool {
    match draft.figure {
        Figure::Path { steps, least } => m.points@.len() >= least,
        _ => true,
    }
}

fn is_counted(draft: &Draft, m: &Measure) -> (r: bool)
    ensures
        r == counts(*draft, *m),
{
    match &draft.figure {
        Figure::Path { steps: _, least } => m.points.len() >= *least,
        _ => true,
    }
}

/// The width that a line is drawn with.
pub open spec fn graphic_width(width_raw: i32) -> i32 {
    if width_raw != 0 {
        width_raw
    } else {
        GRAPHIC_WIDTH_RAW
    }
}

pub fn resolve_graphic_width_raw(width_raw: i32) -> (r: i32)
    ensures
        r == graphic_width(width_raw),
{
    if width_raw != 0 {
        width_raw
    } else {
        GRAPHIC_WIDTH_RAW
    }
}

/// A track between two points.
pub open spec fn track(layer: u8, start: CoordPoint, end: CoordPoint, width_raw: i32) -> PcbTrack {
    PcbTrack {
        layer,
        start,
        end,
        width_raw,
        is_locked: false,
        is_tenting_top: false,
        is_tenting_bottom: false,
        is_keepout: false,
        net_index: 0,
        component_index: 0,
    }
}

fn make_track(layer: u8, start: CoordPoint, end: CoordPoint, width_raw: i32) -> (r: PcbTrack)
    ensures
        r == track(layer, start, end, width_raw),
{
    PcbTrack {
        layer,
        start,
        end,
        width_raw,
        is_locked: false,
        is_tenting_top: false,
        is_tenting_bottom: false,
        is_keepout: false,
        net_index: 0,
        component_index: 0,
    }
}

/// The tracks along points.
pub open spec fn tracks_along(layer: u8, points: Seq<CoordPoint>, width_raw: i32) -> Seq<PcbTrack> {
    if points.len() == 0 {
        Seq::empty()
    } else {
        Seq::new(
            (points.len() - 1) as nat,
            |i: int| track(layer, points[i], points[i + 1], width_raw),
        )
    }
}

fn push_tracks_along(
    tracks: &mut Vec<PcbTrack>,
    layer: u8,
    points: &Vec<CoordPoint>,
    width_raw: i32,
)
    ensures
        final(tracks)@ == old(tracks)@ + tracks_along(layer, points@, width_raw),
{
    let ghost before = tracks@;
    if points.len() == 0 {
        assert(tracks@ =~= before + tracks_along(layer, points@, width_raw));
        return;
    }
    let mut i: usize = 0;
    let count: usize = points.len() - 1;
    assert(tracks@ =~= before + tracks_along(layer, points@, width_raw).take(0));
    while i < count
        invariant
            i <= count,
            count == points@.len() - 1,
            tracks@ == before + tracks_along(layer, points@, width_raw).take(i as int),
        decreases count - i,
    {
        tracks.push(make_track(layer, points[i], points[i + 1], width_raw));
        i += 1;
        assert(tracks@ =~= before + tracks_along(layer, points@, width_raw).take(i as int));
    }
    assert(tracks@ =~= before + tracks_along(layer, points@, width_raw));
}

/// The tracks around points, back to the first.
pub open spec fn tracks_around(layer: u8, points: Seq<CoordPoint>, width_raw: i32) -> Seq<PcbTrack> {
    if points.len() < 2 {
        Seq::empty()
    } else {
        Seq::new(
            points.len(),
            |i: int|
                track(
                    layer,
                    points[i],
                    if i + 1 < points.len() {
                        points[i + 1]
                    } else {
                        points[0]
                    },
                    width_raw,
                ),
        )
    }
}

fn push_tracks_around(
    tracks: &mut Vec<PcbTrack>,
    layer: u8,
    points: &Vec<CoordPoint>,
    width_raw: i32,
)
    ensures
        final(tracks)@ == old(tracks)@ + tracks_around(layer, points@, width_raw),
{
    let ghost before = tracks@;
    if points.len() < 2 {
        assert(tracks@ =~= before + tracks_around(layer, points@, width_raw));
        return;
    }
    let mut i: usize = 0;
    assert(tracks@ =~= before + tracks_around(layer, points@, width_raw).take(0));
    while i < points.len()
        invariant
            i <= points@.len(),
            2 <= points@.len(),
            tracks@ == before + tracks_around(layer, points@, width_raw).take(i as int),
        decreases points.len() - i,
    {
        let end = if i < points.len() - 1 {
            points[i + 1]
        } else {
            points[0]
        };
        tracks.push(make_track(layer, points[i], end, width_raw));
        i += 1;
        assert(tracks@ =~= before + tracks_around(layer, points@, width_raw).take(i as int));
    }
    assert(tracks@ =~= before + tracks_around(layer, points@, width_raw));
}

/// Whether a draft is a circle that goes through all layers.
pub open spec fn is_through(draft: Draft) -> bool {
    draft.role == Role::Fill && draft.layer_code == 12 && draft.figure is Circle
}

fn goes_through(draft: &Draft) -> (r: bool)
    ensures
        r == is_through(*draft),
{
    let is_circle = match &draft.figure {
        Figure::Circle(_) => true,
        _ => false,
    };
    draft.role == Role::Fill && draft.layer_code == 12 && is_circle
}

/// The pad that an alignment hole is: as wide as its hole, and not plated.
pub open spec fn hole_plan(m: Measure) -> PadPlan {
    PadPlan {
        designator: ""@,
        location: m.center,
        size: CoordPoint { x: m.diameter_raw, y: m.diameter_raw },
        hole_size_raw: m.diameter_raw,
        shape: PAD_SHAPE_ROUND,
        rotation: zero(),
        is_plated: false,
        layer: LAYER_MULTI,
        solder_mask_expansion_raw: 0,
        hole_type: PAD_HOLE_ROUND,
        hole_slot_length_raw: m.diameter_raw,
        hole_rotation: zero(),
    }
}

fn make_hole(m: &Measure) -> (r: PcbPad)
    ensures
        is_pad(r, hole_plan(*m)),
{
    let size = CoordPoint::new(m.diameter_raw, m.diameter_raw);
    PcbPad {
        designator: "".to_owned(),
        location: m.center,
        size_top: size,
        size_middle: size,
        size_bottom: size,
        hole_size_raw: m.diameter_raw,
        shape_top: PAD_SHAPE_ROUND,
        shape_middle: PAD_SHAPE_ROUND,
        shape_bottom: PAD_SHAPE_ROUND,
        rotation: Real::new(ZERO_BITS),
        is_plated: false,
        layer: LAYER_MULTI,
        is_locked: false,
        is_tenting_top: false,
        is_tenting_bottom: false,
        is_keepout: false,
        mode: 0,
        power_plane_connect_style: 0,
        relief_air_gap_raw: 0,
        relief_conductor_width_raw: 100_000,
        relief_entries: 4,
        power_plane_clearance_raw: 100_000,
        power_plane_relief_expansion_raw: 200_000,
        paste_mask_expansion_raw: 0,
        solder_mask_expansion_raw: 0,
        drill_type: 0,
        jumper_id: 0,
        hole_type: PAD_HOLE_ROUND,
        hole_slot_length_raw: m.diameter_raw,
        hole_rotation: Real::new(ZERO_BITS),
        corner_radius_percentage: CORNER_RADIUS_PERCENTAGE,
    }
}

/// The width of the lines around an alignment hole.
pub open spec fn hole_width(width_raw: i32) -> i32 {
    if graphic_width(width_raw) < GRAPHIC_WIDTH_RAW {
        GRAPHIC_WIDTH_RAW
    } else {
        graphic_width(width_raw)
    }
}

/// The alignment holes among the first `n` drafts: circles through all layers
/// that are marked.
pub open spec fn hole_plans(drafts: Seq<MeasuredDraft>, n: int) -> Seq<PadPlan>
    decreases n,
{
    if n <= 0 {
        Seq::empty()
    } else {
        let (draft, m) = drafts[n - 1];
        let before = hole_plans(drafts, n - 1);
        if is_through(draft) && m.is_marked {
            before.push(hole_plan(m))
        } else {
            before
        }
    }
}

/// The tracks around the alignment holes among the first `n` drafts.
pub open spec fn hole_tracks(drafts: Seq<MeasuredDraft>, n: int) -> Seq<PcbTrack>
    decreases n,
{
    if n <= 0 {
        Seq::empty()
    } else {
        let (draft, m) = drafts[n - 1];
        let before = hole_tracks(drafts, n - 1);
        if is_through(draft) && m.is_marked {
            before + tracks_around(LAYER_TOP_OVERLAY, m.ring@, hole_width(m.width_raw))
                + tracks_around(LAYER_MECHANICAL_1, m.ring@, hole_width(m.width_raw))
        } else {
            before
        }
    }
}

/// The circles through all layers among the first `n` drafts that are not marked.
pub open spec fn through_plans(drafts: Seq<MeasuredDraft>, n: int) -> Seq<RegionPlan>
    decreases n,
{
    if n <= 0 {
        Seq::empty()
    } else {
        let (draft, m) = drafts[n - 1];
        let before = through_plans(drafts, n - 1);
        if is_through(draft) && !m.is_marked {
            before.push(area_plan(graphic_layer(draft.layer_code), m.ring@))
        } else {
            before
        }
    }
}

/// The tracks along the lines among the first `n` drafts.
pub open spec fn line_tracks(drafts: Seq<MeasuredDraft>, n: int) -> Seq<PcbTrack>
    decreases n,
{
    if n <= 0 {
        Seq::empty()
    } else {
        let (draft, m) = drafts[n - 1];
        let before = line_tracks(drafts, n - 1);
        if draft.role == Role::Stroke && !(draft.figure is Circle) && !(draft.figure is Arc)
            && counts(draft, m) {
            before + tracks_along(
                graphic_layer(draft.layer_code),
                m.points@,
                graphic_width(m.width_raw),
            )
        } else {
            before
        }
    }
}

/// An arc between two angles.
pub open spec fn arc(draft: Draft, m: Measure, start: Real, end: Real) -> PcbArc {
    PcbArc {
        layer: graphic_layer(draft.layer_code),
        center: m.center,
        radius_raw: m.radius_raw,
        start_angle: start,
        end_angle: end,
        width_raw: graphic_width(m.width_raw),
        is_locked: false,
        is_tenting_top: false,
        is_tenting_bottom: false,
        is_keepout: false,
    }
}

fn make_arc(draft: &Draft, m: &Measure, start: Real, end: Real) -> (r: PcbArc)
    ensures
        r == arc(*draft, *m, start, end),
{
    PcbArc {
        layer: map_graphic_layer(draft.layer_code),
        center: m.center,
        radius_raw: m.radius_raw,
        start_angle: start,
        end_angle: end,
        width_raw: resolve_graphic_width_raw(m.width_raw),
        is_locked: false,
        is_tenting_top: false,
        is_tenting_bottom: false,
        is_keepout: false,
    }
}

/// The circles among the first `n` drafts, as arcs all around.
pub open spec fn circle_arcs(drafts: Seq<MeasuredDraft>, n: int) -> Seq<PcbArc>
    decreases n,
{
    if n <= 0 {
        Seq::empty()
    } else {
        let (draft, m) = drafts[n - 1];
        let before = circle_arcs(drafts, n - 1);
        if draft.role == Role::Stroke && draft.figure is Circle {
            before.push(arc(draft, m, zero(), Real { bits: FULL_TURN_BITS }))
        } else {
            before
        }
    }
}

/// The arcs among the first `n` drafts.
pub open spec fn part_arcs(drafts: Seq<MeasuredDraft>, n: int) -> Seq<PcbArc>
    decreases n,
{
    if n <= 0 {
        Seq::empty()
    } else {
        let (draft, m) = drafts[n - 1];
        let before = part_arcs(drafts, n - 1);
        if draft.role == Role::Stroke && draft.figure is Arc {
            before.push(arc(draft, m, m.start_angle, m.end_angle))
        } else {
            before
        }
    }
}

/// The outline of an area: a circle, or else a path.
pub open spec fn area_outline(draft: Draft, m: Measure) -> Seq<CoordPoint> {
    if draft.figure is Circle {
        m.ring@
    } else {
        closed(m.points@)
    }
}

/// The areas among the first `n` drafts.
pub open spec fn area_plans(drafts: Seq<MeasuredDraft>, n: int) -> Seq<RegionPlan>
    decreases n,
{
    if n <= 0 {
        Seq::empty()
    } else {
        let (draft, m) = drafts[n - 1];
        let before = area_plans(drafts, n - 1);
        if draft.role == Role::Fill && !is_through(draft) && counts(draft, m) && area_outline(
            draft,
            m,
        ).len() >= 3 {
            before.push(area_plan(graphic_layer(draft.layer_code), area_outline(draft, m)))
        } else {
            before
        }
    }
}

/// Adds the circles through all layers: as holes with lines around them, or as areas.
fn push_through(
    pads: &mut Vec<PcbPad>,
    tracks: &mut Vec<PcbTrack>,
    regions: &mut Vec<PcbRegion>,
    drafts: &Vec<MeasuredDraft>,
)
    requires
        old(tracks)@.len() == 0,
        old(regions)@.len() == 0,
    ensures
        forall|plans: Seq<PadPlan>|
            are_pads(old(pads)@, plans) ==> #[trigger] are_pads(
                final(pads)@,
                plans + hole_plans(drafts@, drafts@.len() as int),
            ),
        final(pads)@.len() == old(pads)@.len() + hole_plans(drafts@, drafts@.len() as int).len(),
        final(tracks)@ == hole_tracks(drafts@, drafts@.len() as int),
        are_regions(final(regions)@, through_plans(drafts@, drafts@.len() as int)),
{
    let ghost pads_before = pads@;
    let ghost mut holes: Seq<PcbPad> = Seq::empty();
    let mut i: usize = 0;
    assert(pads@ =~= pads_before + holes);
    assert(tracks@ =~= hole_tracks(drafts@, 0));
    while i < drafts.len()
        invariant
            i <= drafts@.len(),
            pads@ == pads_before + holes,
            are_pads(holes, hole_plans(drafts@, i as int)),
            tracks@ == hole_tracks(drafts@, i as int),
            are_regions(regions@, through_plans(drafts@, i as int)),
        decreases drafts.len() - i,
    {
        let draft = &drafts[i].0;
        let m = &drafts[i].1;
        if goes_through(draft) {
            if m.is_marked {
                let hole = make_hole(m);
                proof {
                    let now = holes;
                    holes = now.push(hole);
                }
                pads.push(hole);
                assert(pads@ =~= pads_before + holes);
                let resolved: i32 = resolve_graphic_width_raw(m.width_raw);
                let width_raw: i32 = if resolved < GRAPHIC_WIDTH_RAW {
                    GRAPHIC_WIDTH_RAW
                } else {
                    resolved
                };
                push_tracks_around(tracks, LAYER_TOP_OVERLAY, &m.ring, width_raw);
                push_tracks_around(tracks, LAYER_MECHANICAL_1, &m.ring, width_raw);
            } else {
                regions.push(make_area(map_graphic_layer(draft.layer_code), copied(&m.ring)));
            }
        }
        i += 1;
    }
    assert forall|plans: Seq<PadPlan>| are_pads(pads_before, plans) implies #[trigger] are_pads(
        pads@,
        plans + hole_plans(drafts@, drafts@.len() as int),
    ) by {
        let all = plans + hole_plans(drafts@, drafts@.len() as int);
        assert forall|k: int| 0 <= k < all.len() implies is_pad(#[trigger] pads@[k], all[k]) by {
            if k < plans.len() {
                assert(pads@[k] == pads_before[k]);
            } else {
                assert(pads@[k] == holes[k - plans.len()]);
            }
        }
    }
}

fn push_lines(tracks: &mut Vec<PcbTrack>, drafts: &Vec<MeasuredDraft>)
    ensures
        final(tracks)@ == old(tracks)@ + line_tracks(drafts@, drafts@.len() as int),
{
    let ghost before = tracks@;
    let mut i: usize = 0;
    assert(tracks@ =~= before + line_tracks(drafts@, 0));
    while i < drafts.len()
        invariant
            i <= drafts@.len(),
            tracks@ == before + line_tracks(drafts@, i as int),
        decreases drafts.len() - i,
    {
        let draft = &drafts[i].0;
        let m = &drafts[i].1;
        let is_line = match &draft.figure {
            Figure::Circle(_) => false,
            Figure::Arc { circle: _, start: _, end: _ } => false,
            _ => true,
        };
        if draft.role == Role::Stroke && is_line && is_counted(draft, m) {
            push_tracks_along(
                tracks,
                map_graphic_layer(draft.layer_code),
                &m.points,
                resolve_graphic_width_raw(m.width_raw),
            );
        }
        i += 1;
        assert(tracks@ =~= before + line_tracks(drafts@, i as int));
    }
}

fn make_arcs(drafts: &Vec<MeasuredDraft>) -> (r: Vec<PcbArc>)
    ensures
        r@ == circle_arcs(drafts@, drafts@.len() as int) + part_arcs(drafts@, drafts@.len() as int),
{
    let mut arcs: Vec<PcbArc> = Vec::new();
    let mut i: usize = 0;
    assert(arcs@ =~= circle_arcs(drafts@, 0));
    while i < drafts.len()
        invariant
            i <= drafts@.len(),
            arcs@ == circle_arcs(drafts@, i as int),
        decreases drafts.len() - i,
    {
        let draft = &drafts[i].0;
        let m = &drafts[i].1;
        if let Figure::Circle(_) = &draft.figure {
            if draft.role == Role::Stroke {
                arcs.push(make_arc(draft, m, Real::new(ZERO_BITS), Real::new(FULL_TURN_BITS)));
            }
        }
        i += 1;
    }
    let ghost circles = arcs@;
    let mut j: usize = 0;
    assert(arcs@ =~= circles + part_arcs(drafts@, 0));
    while j < drafts.len()
        invariant
            j <= drafts@.len(),
            arcs@ == circles + part_arcs(drafts@, j as int),
        decreases drafts.len() - j,
    {
        let draft = &drafts[j].0;
        let m = &drafts[j].1;
        if let Figure::Arc { circle: _, start: _, end: _ } = &draft.figure {
            if draft.role == Role::Stroke {
                arcs.push(make_arc(draft, m, m.start_angle, m.end_angle));
            }
        }
        j += 1;
        assert(arcs@ =~= circles + part_arcs(drafts@, j as int));
    }
    arcs
}

fn make_areas(drafts: &Vec<MeasuredDraft>) -> (r: Vec<PcbRegion>)
    ensures
        are_regions(r@, area_plans(drafts@, drafts@.len() as int)),
{
    let mut regions: Vec<PcbRegion> = Vec::new();
    let mut i: usize = 0;
    while i < drafts.len()
        invariant
            i <= drafts@.len(),
            are_regions(regions@, area_plans(drafts@, i as int)),
        decreases drafts.len() - i,
    {
        let draft = &drafts[i].0;
        let m = &drafts[i].1;
        if draft.role == Role::Fill && !goes_through(draft) && is_counted(draft, m) {
            let is_circle = match &draft.figure {
                Figure::Circle(_) => true,
                _ => false,
            };
            let outline = if is_circle {
                copied(&m.ring)
            } else {
                let mut outline = copied(&m.points);
                close_outline(&mut outline);
                outline
            };
            if outline.len() >= 3 {
                regions.push(make_area(map_graphic_layer(draft.layer_code), outline));
            }
        }
        i += 1;
    }
    regions
}

/// The circles in the documentation among the first `n` drafts, which mark
/// alignment holes.
pub open spec fn markers(drafts: Seq<Draft>, n: int) -> Seq<crate::cells::Circle>
    decreases n,
{
    if n <= 0 {
        Seq::empty()
    } else {
        let before = markers(drafts, n - 1);
        match drafts[n - 1].figure {
            Figure::Circle(circle) => if drafts[n - 1].role == Role::Stroke
                && drafts[n - 1].layer_code == 13 {
                before.push(circle)
            } else {
                before
            },
            _ => before,
        }
    }
}

pub fn marker_circles(drafts: &Vec<Draft>) -> (r: Vec<crate::cells::Circle>)
    ensures
        r@ == markers(drafts@, drafts@.len() as int),
{
    let mut circles: Vec<crate::cells::Circle> = Vec::new();
    let mut i: usize = 0;
    assert(circles@ =~= markers(drafts@, 0));
    while i < drafts.len()
        invariant
            i <= drafts@.len(),
            circles@ == markers(drafts@, i as int),
        decreases drafts.len() - i,
    {
        let draft = &drafts[i];
        if let Figure::Circle(circle) = &draft.figure {
            if draft.role == Role::Stroke && draft.layer_code == 13 {
                circles.push(*circle);
            }
        }
        i += 1;
    }
    circles
}

// How far a footprint reaches

/// The points that the first `n` pads reach to.
pub open spec fn pad_reach(pads: Seq<MeasuredPad>, n: int) -> Seq<RawPoint>
    decreases n,
{
    if n <= 0 {
        Seq::empty()
    } else {
        pad_reach(pads, n - 1) + pads[n - 1].1.corners@
    }
}

/// The points that the first `n` drafts reach to: those that say how far the
/// body reaches, or the others.
pub open spec fn draft_reach(drafts: Seq<MeasuredDraft>, n: int, body: bool) -> Seq<RawPoint>
    decreases n,
{
    if n <= 0 {
        Seq::empty()
    } else {
        let (draft, m) = drafts[n - 1];
        let before = draft_reach(drafts, n - 1, body);
        if (draft.role == Role::Body) == body && counts(draft, m) {
            before + m.reach@
        } else {
            before
        }
    }
}

/// How far the body of a component reaches: as far as is said of it, or else as
/// far as the rest of the footprint does.
pub open spec fn body_extents(pads: Seq<MeasuredPad>, drafts: Seq<MeasuredDraft>) -> Option<
    Extents,
> {
    match extents_of(draft_reach(drafts, drafts.len() as int, true)) {
        Some(extents) => Some(extents),
        None => extents_of(
            pad_reach(pads, pads.len() as int) + draft_reach(drafts, drafts.len() as int, false),
        ),
    }
}

pub fn footprint_extents(pads: &Vec<MeasuredPad>, drafts: &Vec<MeasuredDraft>) -> (r: Option<
    Extents,
>)
    ensures
        r == body_extents(pads@, drafts@),
{
    let mut bounds = Bounds::new();
    let mut body_bounds = Bounds::new();
    let mut i: usize = 0;
    assert(pad_reach(pads@, 0) =~= Seq::<RawPoint>::empty());
    while i < pads.len()
        invariant
            i <= pads@.len(),
            bounds.extents == extents_of(pad_reach(pads@, i as int)),
        decreases pads.len() - i,
    {
        bounds.update_from_raw_points(&pads[i].1.corners);
        i += 1;
        assert(pad_reach(pads@, i as int) =~= pad_reach(pads@, i - 1) + pads@[i - 1].1.corners@);
    }
    let ghost outer = pad_reach(pads@, pads@.len() as int);
    let mut j: usize = 0;
    assert(outer + draft_reach(drafts@, 0, false) =~= outer);
    assert(draft_reach(drafts@, 0, true) =~= Seq::<RawPoint>::empty());
    while j < drafts.len()
        invariant
            j <= drafts@.len(),
            bounds.extents == extents_of(outer + draft_reach(drafts@, j as int, false)),
            body_bounds.extents == extents_of(draft_reach(drafts@, j as int, true)),
        decreases drafts.len() - j,
    {
        let draft = &drafts[j].0;
        let m = &drafts[j].1;
        if is_counted(draft, m) {
            if draft.role == Role::Body {
                body_bounds.update_from_raw_points(&m.reach);
            } else {
                bounds.update_from_raw_points(&m.reach);
                assert((outer + draft_reach(drafts@, j as int, false)) + m.reach@ =~= outer + (
                draft_reach(drafts@, j as int, false) + m.reach@));
            }
        }
        j += 1;
    }
    match body_bounds.extents {
        Some(extents) => Some(extents),
        None => bounds.extents,
    }
}

// The component

/// How far a body reaches, in ten-thousandths of a mil.
#[derive(Debug, Clone, Copy, PartialEq, Eq, Structural)]
pub struct RawExtents {
    pub min_x: i32,
    pub max_x: i32,
    pub min_y: i32,
    pub max_y: i32,
}

/// The corners of a body, one after the other.
pub open spec fn body_outline(extents: RawExtents) -> Seq<CoordPoint> {
    seq![
        CoordPoint { x: extents.min_x, y: extents.min_y },
        CoordPoint { x: extents.max_x, y: extents.min_y },
        CoordPoint { x: extents.max_x, y: extents.max_y },
        CoordPoint { x: extents.min_x, y: extents.max_y },
    ]
}

pub fn component_body_outline(extents: RawExtents) -> (r: Vec<CoordPoint>)
    ensures
        r@ == body_outline(extents),
{
    let mut outline: Vec<CoordPoint> = Vec::new();
    outline.push(CoordPoint::new(extents.min_x, extents.min_y));
    outline.push(CoordPoint::new(extents.max_x, extents.min_y));
    outline.push(CoordPoint::new(extents.max_x, extents.max_y));
    outline.push(CoordPoint::new(extents.min_x, extents.max_y));
    assert(outline@ =~= body_outline(extents));
    outline
}

/// The name and number of a model, and the file that it is in.
#[derive(Debug)]
pub struct ModelFile {
    pub id: String,
    pub name: String,
    pub step_data: Vec<u8>,
}

/// Whether a body is that of a component of the given height and model, and for
/// the rest as all bodies are.
pub open spec fn is_body_of(
    body: PcbComponentBody,
    height_raw: i32,
    model: ModelFile,
    extents: RawExtents,
) -> bool {
    &&& body.layer_name@ == "MECHANICAL1"@
    &&& body.name@ == "__LCEDA_BODY__"@
    &&& body.model_id@ == model.id@
    &&& body.model_name@ == model.name@
    &&& body.model_source@ == "Undefined"@
    &&& body.texture@ == ""@
    &&& body.outline@ == body_outline(extents)
    &&& body == (PcbComponentBody {
        layer_name: body.layer_name,
        name: body.name,
        kind: 0,
        subpoly_index: (-1) as i32,
        union_index: 0,
        arc_resolution_raw: 5_000,
        is_shape_based: false,
        cavity_height_raw: 0,
        standoff_height_raw: 0,
        overall_height_raw: if height_raw < BODY_HEIGHT_RAW {
            BODY_HEIGHT_RAW
        } else {
            height_raw
        },
        body_color_3d: 0x80_8080,
        body_opacity_3d: Real { bits: ONE_BITS },
        body_projection: 0,
        model_id: body.model_id,
        model_embed: true,
        model_2d_location: CoordPoint { x: 0, y: 0 },
        model_2d_rotation: zero(),
        model_3d_rot_x: zero(),
        model_3d_rot_y: zero(),
        model_3d_rot_z: zero(),
        model_3d_dz_raw: 0,
        model_checksum: 0,
        model_name: body.model_name,
        model_type: 1,
        model_source: body.model_source,
        identifier: None,
        texture: body.texture,
        outline: body.outline,
        is_locked: false,
        is_tenting_top: false,
        is_tenting_bottom: false,
        is_keepout: false,
    })
}

fn make_body(height_raw: i32, model: &ModelFile, extents: RawExtents) -> (r: PcbComponentBody)
    ensures
        is_body_of(r, height_raw, *model, extents),
{
    PcbComponentBody {
        layer_name: "MECHANICAL1".to_owned(),
        name: "__LCEDA_BODY__".to_owned(),
        kind: 0,
        subpoly_index: -1,
        union_index: 0,
        arc_resolution_raw: 5_000,
        is_shape_based: false,
        cavity_height_raw: 0,
        standoff_height_raw: 0,
        overall_height_raw: if height_raw < BODY_HEIGHT_RAW {
            BODY_HEIGHT_RAW
        } else {
            height_raw
        },
        body_color_3d: 0x80_8080,
        body_opacity_3d: Real::new(ONE_BITS),
        body_projection: 0,
        model_id: model.id.clone(),
        model_embed: true,
        model_2d_location: CoordPoint::new(0, 0),
        model_2d_rotation: Real::new(ZERO_BITS),
        model_3d_rot_x: Real::new(ZERO_BITS),
        model_3d_rot_y: Real::new(ZERO_BITS),
        model_3d_rot_z: Real::new(ZERO_BITS),
        model_3d_dz_raw: 0,
        model_checksum: 0,
        model_name: model.name.clone(),
        model_type: 1,
        model_source: "Undefined".to_owned(),
        identifier: None,
        texture: "".to_owned(),
        outline: component_body_outline(extents),
        is_locked: false,
        is_tenting_top: false,
        is_tenting_bottom: false,
        is_keepout: false,
    }
}

/// Whether a model of a library is that of a file.
pub open spec fn is_model_of(model: PcbModel, file: ModelFile) -> bool {
    &&& model.id@ == file.id@
    &&& model.name@ == file.name@
    &&& model.model_source@ == "Undefined"@
    &&& model.step_data@ == file.step_data@
    &&& model == (PcbModel {
        id: model.id,
        name: model.name,
        is_embedded: true,
        model_source: model.model_source,
        rotation_x: zero(),
        rotation_y: zero(),
        rotation_z: zero(),
        dz_raw: 0,
        checksum: 0,
        step_data: model.step_data,
    })
}

/// Whether what is said of a primitive is how far the mask is open on it.
pub open spec fn is_opening_info(
    info: PcbExtendedPrimitiveInfo,
    index: int,
    text: Seq<char>,
) -> bool {
    &&& info.primitive_index == index
    &&& info.object_name@ == "Region"@
    &&& pair_views(info.params@) == seq![
        ("TYPE"@, "Mask"@),
        ("SOLDERMASKEXPANSIONMODE"@, "Manual"@),
        ("SOLDERMASKEXPANSION_MANUAL"@, text),
        ("PASTEMASKEXPANSIONMODE"@, "None"@),
    ]
}

fn make_opening_info(index: usize, text: &str) -> (r: PcbExtendedPrimitiveInfo)
    ensures
        is_opening_info(r, index as int, text@),
{
    let mut params: Vec<(String, String)> = Vec::new();
    params.push(("TYPE".to_owned(), "Mask".to_owned()));
    params.push(("SOLDERMASKEXPANSIONMODE".to_owned(), "Manual".to_owned()));
    params.push(("SOLDERMASKEXPANSION_MANUAL".to_owned(), text.to_owned()));
    params.push(("PASTEMASKEXPANSIONMODE".to_owned(), "None".to_owned()));
    assert(pair_views(params@) =~= seq![
        ("TYPE"@, "Mask"@),
        ("SOLDERMASKEXPANSIONMODE"@, "Manual"@),
        ("SOLDERMASKEXPANSION_MANUAL"@, text@),
        ("PASTEMASKEXPANSIONMODE"@, "None"@),
    ]);
    PcbExtendedPrimitiveInfo {
        primitive_index: index,
        object_name: "Region".to_owned(),
        params,
    }
}

/// The plans for all pads of a footprint: those of its rows, and the alignment holes.
pub open spec fn all_pads(pads: Seq<MeasuredPad>, drafts: Seq<MeasuredDraft>) -> Seq<PadPlan> {
    pad_plans(pads) + hole_plans(drafts, drafts.len() as int)
}

/// All tracks of a footprint.
pub open spec fn all_tracks(drafts: Seq<MeasuredDraft>) -> Seq<PcbTrack> {
    hole_tracks(drafts, drafts.len() as int) + line_tracks(drafts, drafts.len() as int)
}

/// All arcs of a footprint.
pub open spec fn all_arcs(drafts: Seq<MeasuredDraft>) -> Seq<PcbArc> {
    circle_arcs(drafts, drafts.len() as int) + part_arcs(drafts, drafts.len() as int)
}

/// The plans for the openings in the mask of a footprint.
pub open spec fn all_openings(pads: Seq<MeasuredPad>) -> Seq<(RegionPlan, Seq<char>)> {
    mask_plans(pads, pads.len() as int)
}

/// The plans for the regions of a footprint but for the openings in its mask:
/// circles through all layers, other areas, and the outlines of its pads.
pub open spec fn drawn_regions(pads: Seq<MeasuredPad>, drafts: Seq<MeasuredDraft>) -> Seq<
    RegionPlan,
> {
    through_plans(drafts, drafts.len() as int) + area_plans(drafts, drafts.len() as int)
        + outline_plans(pads, pads.len() as int)
}

/// The plans for all regions of a footprint.
pub open spec fn all_regions(pads: Seq<MeasuredPad>, drafts: Seq<MeasuredDraft>) -> Seq<
    RegionPlan,
> {
    drawn_regions(pads, drafts) + all_openings(pads).map_values(
        |opening: (RegionPlan, Seq<char>)| opening.0,
    )
}

/// The number of the first opening in the mask, when the primitives of a
/// footprint are counted: pads, tracks, arcs, and regions.
pub open spec fn first_opening(pads: Seq<MeasuredPad>, drafts: Seq<MeasuredDraft>) -> nat {
    all_pads(pads, drafts).len() + all_tracks(drafts).len() + all_arcs(drafts).len()
        + drawn_regions(pads, drafts).len()
}

/// What a footprint is put together from.
#[derive(Debug)]
pub struct FootprintPlan {
    pub name: String,
    pub description: String,
    pub height_raw: i32,
    pub pads: Vec<MeasuredPad>,
    pub drafts: Vec<MeasuredDraft>,
    /// Its model, and how far its body reaches.
    pub model: Option<ModelFile>,
    pub extents: Option<RawExtents>,
}

/// Whether a component is the one that is planned.
pub open spec fn is_component(component: PcbComponent, plan: FootprintPlan) -> bool {
    let pads = plan.pads@;
    let drafts = plan.drafts@;
    &&& component.name@ == plan.name@
    &&& component.description@ == plan.description@
    &&& component.height_raw == plan.height_raw
    &&& are_pads(component.pads@, all_pads(pads, drafts))
    &&& component.tracks@ == all_tracks(drafts)
    &&& component.arcs@ == all_arcs(drafts)
    &&& are_regions(component.regions@, all_regions(pads, drafts))
    &&& component.extended_primitive_information@.len() == all_openings(pads).len()
    &&& forall|i: int|
        0 <= i < all_openings(pads).len() ==> is_opening_info(
            #[trigger] component.extended_primitive_information@[i],
            first_opening(pads, drafts) + i,
            all_openings(pads)[i].1,
        )
    &&& match (plan.model, plan.extents) {
        (Some(model), Some(extents)) => component.bodies@.len() == 1 && is_body_of(
            component.bodies@[0],
            plan.height_raw,
            model,
            extents,
        ),
        _ => component.bodies@.len() == 0,
    }
}

/// Whether a library holds the one component that is planned, and its model.
pub open spec fn is_library(library: PcbLibrary, plan: FootprintPlan) -> bool {
    &&& library.components@.len() == 1
    &&& is_component(library.components@[0], plan)
    &&& match (plan.model, plan.extents) {
        (Some(model), Some(_)) => library.models@.len() == 1 && is_model_of(
            library.models@[0],
            model,
        ),
        _ => library.models@.len() == 0,
    }
}

proof fn lemma_regions_joined(
    a: Seq<PcbRegion>,
    p: Seq<RegionPlan>,
    b: Seq<PcbRegion>,
    q: Seq<RegionPlan>,
)
    requires
        are_regions(a, p),
        are_regions(b, q),
    ensures
        are_regions(a + b, p + q),
{
    assert forall|i: int| 0 <= i < (p + q).len() implies is_region(
        #[trigger] (a + b)[i],
        (p + q)[i],
    ) by {
        if i < p.len() {
            assert((a + b)[i] == a[i]);
        } else {
            assert((a + b)[i] == b[i - p.len()]);
        }
    }
}

/// Puts a footprint together.
pub fn build_component(plan: &FootprintPlan) -> (r: PcbComponent)
    requires
        first_opening(plan.pads@, plan.drafts@) + all_openings(plan.pads@).len() <= usize::MAX,
    ensures
        is_component(r, *plan),
{
    let ghost pads = plan.pads@;
    let ghost drafts = plan.drafts@;
    let mut made_pads = make_pads(&plan.pads);
    let mut tracks: Vec<PcbTrack> = Vec::new();
    let mut regions: Vec<PcbRegion> = Vec::new();
    push_through(&mut made_pads, &mut tracks, &mut regions, &plan.drafts);
    assert(are_pads(made_pads@, all_pads(pads, drafts)));
    push_lines(&mut tracks, &plan.drafts);
    let arcs = make_arcs(&plan.drafts);
    let ghost through = regions@;
    let mut areas = make_areas(&plan.drafts);
    let mut outlines = make_outlines(&plan.pads);
    let (openings, texts) = make_openings(&plan.pads);
    let mut openings = openings;
    proof {
        let n = drafts.len() as int;
        let m = pads.len() as int;
        lemma_regions_joined(through, through_plans(drafts, n), areas@, area_plans(drafts, n));
        lemma_regions_joined(
            through + areas@,
            through_plans(drafts, n) + area_plans(drafts, n),
            outlines@,
            outline_plans(pads, m),
        );
        let opened = all_openings(pads).map_values(|o: (RegionPlan, Seq<char>)| o.0);
        assert(are_regions(openings@, opened)) by {
            assert forall|i: int| 0 <= i < opened.len() implies is_region(
                #[trigger] openings@[i],
                opened[i],
            ) by {
                assert(opened[i] == all_openings(pads)[i].0);
            }
        }
        lemma_regions_joined(
            through + areas@ + outlines@,
            drawn_regions(pads, drafts),
            openings@,
            opened,
        );
        assert forall|k: int| 0 <= k < texts@.len() implies (#[trigger] texts@[k])@ == all_openings(
            pads,
        )[k].1 by {
            assert(is_region(openings@[k], all_openings(pads)[k].0));
        }
    }
    regions.append(&mut areas);
    regions.append(&mut outlines);
    let start: usize = made_pads.len() + tracks.len() + arcs.len() + regions.len();
    regions.append(&mut openings);
    let mut infos: Vec<PcbExtendedPrimitiveInfo> = Vec::new();
    let mut i: usize = 0;
    while i < texts.len()
        invariant
            i <= texts@.len(),
            texts@.len() == all_openings(pads).len(),
            start == first_opening(pads, drafts),
            start + all_openings(pads).len() <= usize::MAX,
            forall|k: int|
                0 <= k < texts@.len() ==> (#[trigger] texts@[k])@ == all_openings(pads)[k].1,
            infos@.len() == i,
            forall|k: int|
                0 <= k < i ==> is_opening_info(
                    #[trigger] infos@[k],
                    start + k,
                    all_openings(pads)[k].1,
                ),
        decreases texts.len() - i,
    {
        infos.push(make_opening_info(start + i, texts[i].as_str()));
        i += 1;
    }
    let mut bodies: Vec<PcbComponentBody> = Vec::new();
    if let (Some(model), Some(extents)) = (&plan.model, plan.extents) {
        bodies.push(make_body(plan.height_raw, model, extents));
    }
    PcbComponent {
        name: plan.name.clone(),
        description: plan.description.clone(),
        height_raw: plan.height_raw,
        pads: made_pads,
        arcs,
        tracks,
        regions,
        bodies,
        extended_primitive_information: infos,
    }
}

/// Whether the primitives of a footprint can be counted.
pub fn primitives_fit(plan: &FootprintPlan) -> (r: bool)
    ensures
        r == (first_opening(plan.pads@, plan.drafts@) + all_openings(plan.pads@).len()
            <= usize::MAX),
{
    let mut pads = make_pads(&plan.pads);
    let mut tracks: Vec<PcbTrack> = Vec::new();
    let mut through: Vec<PcbRegion> = Vec::new();
    push_through(&mut pads, &mut tracks, &mut through, &plan.drafts);
    assert(are_pads(pads@, all_pads(plan.pads@, plan.drafts@)));
    push_lines(&mut tracks, &plan.drafts);
    let arcs = make_arcs(&plan.drafts);
    let areas = make_areas(&plan.drafts);
    let outlines = make_outlines(&plan.pads);
    let (openings, _texts) = make_openings(&plan.pads);
    let count: u128 = pads.len() as u128 + tracks.len() as u128 + arcs.len() as u128
        + through.len() as u128 + areas.len() as u128 + outlines.len() as u128
        + openings.len() as u128;
    count <= usize::MAX as u128
}

/// Puts a library together that holds one footprint, and its model where it has
/// one and a body to show it.
pub fn build_pcblib(plan: FootprintPlan) -> (r: PcbLibrary)
    requires
        first_opening(plan.pads@, plan.drafts@) + all_openings(plan.pads@).len() <= usize::MAX,
    ensures
        is_library(r, plan),
{
    let component = build_component(&plan);
    let mut library = PcbLibrary::default();
    library.components.push(component);
    if let (Some(model), Some(_)) = (plan.model, plan.extents) {
        library.models.push(
            PcbModel {
                id: model.id,
                name: model.name,
                is_embedded: true,
                model_source: "Undefined".to_owned(),
                rotation_x: Real::new(ZERO_BITS),
                rotation_y: Real::new(ZERO_BITS),
                rotation_z: Real::new(ZERO_BITS),
                dz_raw: 0,
                checksum: 0,
                step_data: model.step_data,
            },
        );
    }
    library
}

/// What is said of how far the mask is open is said of the openings: counting
/// pads, tracks, arcs and regions, the number is that of a region, and the region
/// is the opening.
pub proof fn law_openings_numbered(component: PcbComponent, plan: FootprintPlan, i: int)
    requires
        is_component(component, plan),
        0 <= i < component.extended_primitive_information@.len(),
    ensures
        ({
            let at = component.extended_primitive_information@[i].primitive_index
                - component.pads@.len() - component.tracks@.len() - component.arcs@.len();
            &&& 0 <= at < component.regions@.len()
            &&& is_region(component.regions@[at], all_openings(plan.pads@)[i].0)
        }),
{
    let pads = plan.pads@;
    let drafts = plan.drafts@;
    let at = drawn_regions(pads, drafts).len() + i;
    assert(is_opening_info(
        component.extended_primitive_information@[i],
        first_opening(pads, drafts) + i,
        all_openings(pads)[i].1,
    ));
    assert(all_regions(pads, drafts)[at] == all_openings(pads)[i].0);
    assert(is_region(component.regions@[at], all_regions(pads, drafts)[at]));
}

} // verus!
